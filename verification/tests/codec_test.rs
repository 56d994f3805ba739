use embedded_recruitment_task::message::{
    client_message, server_message, AddRequest, AddResponse, ClientMessage, EchoMessage,
    ServerMessage,
};
use embedded_recruitment_task::server::{
    after_accept, after_read, after_second_read, handle_request, keep_accepting, respond,
    AcceptEvent, AcceptStep, HandleResult, ReadEvent, ReadStep, Reply, RequestOutcome,
    RunDecision, ServerLifecycle, StopDecision, Unanswered, BUFFER_SIZE,
};

fn echo(text: &str) -> client_message::Message {
    client_message::Message::EchoMessage(EchoMessage { content: text.to_string() })
}

fn add(a: i32, b: i32) -> client_message::Message {
    client_message::Message::AddRequest(AddRequest { a, b })
}

fn encode(message: client_message::Message) -> Vec<u8> {
    ClientMessage { message: Some(message) }.encode_to_vec()
}

#[test]
fn add_request_is_written_as_prost_writes_it() {
    assert_eq!(encode(add(300, 0)), vec![0x12, 0x03, 0x08, 0xAC, 0x02]);
    assert_eq!(encode(add(0, 1)), vec![0x12, 0x02, 0x10, 0x01]);
    assert_eq!(encode(add(0, 0)), vec![0x12, 0x00]);
}

#[test]
fn negative_numbers_take_ten_bytes_and_read_back() {
    let bytes = encode(add(-1, 1));
    assert_eq!(
        bytes,
        vec![0x12, 0x0D, 0x08, 0xFF, 0xFF, 0xFF, 0xFF, 0xFF, 0xFF, 0xFF, 0xFF, 0xFF, 0x01, 0x10, 0x01]
    );
    let back = ClientMessage::decode(&bytes[..]).expect("decodes");
    assert_eq!(back.message, Some(add(-1, 1)));
}

#[test]
fn echo_is_written_as_prost_writes_it() {
    assert_eq!(encode(echo("Hi")), vec![0x0A, 0x04, 0x0A, 0x02, 0x48, 0x69]);
    assert_eq!(encode(echo("")), vec![0x0A, 0x00]);
    assert_eq!(ClientMessage { message: None }.encode_to_vec(), Vec::<u8>::new());
    let reply = ServerMessage {
        message: Some(server_message::Message::AddResponse(AddResponse { result: 30 })),
    };
    assert_eq!(reply.encode_to_vec(), vec![0x12, 0x02, 0x08, 0x1E]);
}

#[test]
fn multibyte_text_reads_back() {
    let bytes = encode(echo("héllo ✓"));
    let back = ClientMessage::decode(&bytes[..]).expect("decodes");
    assert_eq!(back.message, Some(echo("héllo ✓")));
}

#[test]
fn malformed_bytes_are_refused() {
    // a truncated varint key
    assert!(ClientMessage::decode(&[0xFF]).is_err());
    // a nested message longer than the input
    assert!(ClientMessage::decode(&[0x0A, 0x05, 0x0A]).is_err());
    // wire type 7 does not exist
    assert!(ClientMessage::decode(&[0x0F]).is_err());
    // field number 0
    assert!(ClientMessage::decode(&[0x02, 0x00]).is_err());
    // text that is not UTF-8
    assert!(ClientMessage::decode(&[0x0A, 0x03, 0x0A, 0x01, 0xFF]).is_err());
    // field 1 must be a nested message, not a varint
    assert!(ClientMessage::decode(&[0x08, 0x01]).is_err());
    // an eleven-byte varint
    assert!(ClientMessage::decode(&[0x18, 0x80, 0x80, 0x80, 0x80, 0x80, 0x80, 0x80, 0x80, 0x80, 0x80, 0x01]).is_err());
    // a lone end-of-group key
    assert!(ClientMessage::decode(&[0x1C]).is_err());
    // a group closed with another field number
    assert!(ClientMessage::decode(&[0x1B, 0x24]).is_err());
}

#[test]
fn unknown_fields_are_passed_over() {
    let mut bytes = vec![
        0x18, 0x96, 0x01, // field 3, varint
        0x1D, 1, 2, 3, 4, // field 3, four bytes
        0x19, 1, 2, 3, 4, 5, 6, 7, 8, // field 3, eight bytes
        0x1A, 0x02, 0xAA, 0xBB, // field 3, two delimited bytes
        0x1B, 0x08, 0x01, 0x1C, // field 3, a group holding a varint
    ];
    bytes.extend(encode(echo("kept")));
    let back = ClientMessage::decode(&bytes[..]).expect("decodes");
    assert_eq!(back.message, Some(echo("kept")));
    // an unknown field inside the echo message
    let inner = vec![0x0A, 0x08, 0x10, 0x07, 0x0A, 0x04, b'a', b'b', b'c', b'd'];
    let back = ClientMessage::decode(&inner[..]).expect("decodes");
    assert_eq!(back.message, Some(echo("abcd")));
}

#[test]
fn repeated_fields_merge_as_prost_merges_them() {
    // the later echo replaces the earlier text
    let mut bytes = encode(echo("first"));
    bytes.extend(encode(echo("second")));
    assert_eq!(ClientMessage::decode(&bytes[..]).unwrap().message, Some(echo("second")));
    // two add requests are merged field by field
    let mut bytes = encode(add(1, 0));
    bytes.extend(encode(add(0, 2)));
    assert_eq!(ClientMessage::decode(&bytes[..]).unwrap().message, Some(add(1, 2)));
    // an add after an echo takes its place
    let mut bytes = encode(echo("gone"));
    bytes.extend(encode(add(5, 6)));
    assert_eq!(ClientMessage::decode(&bytes[..]).unwrap().message, Some(add(5, 6)));
}

#[test]
fn empty_input_is_an_empty_message() {
    assert_eq!(ClientMessage::decode(&[]).unwrap().message, None);
    assert!(matches!(handle_request(&[]), RequestOutcome::NoContent));
    assert!(matches!(respond(ClientMessage { message: None }), Reply::NoContent));
}

#[test]
fn echo_requests_are_mirrored() {
    let bytes = encode(echo("Hello, World!"));
    match handle_request(&bytes[..]) {
        RequestOutcome::Reply(payload) => assert_eq!(payload, bytes),
        other => panic!("unexpected outcome {:?}", other),
    }
}

#[test]
fn sums_that_overflow_are_refused() {
    let bytes = encode(add(i32::MAX, 1));
    assert!(matches!(handle_request(&bytes[..]), RequestOutcome::AddOverflow));
    assert!(matches!(after_read(ReadEvent::Received(bytes)), ReadStep::AddOverflow));
    assert!(matches!(respond(ClientMessage { message: Some(add(i32::MIN, -1)) }), Reply::AddOverflow));
    match respond(ClientMessage { message: Some(add(-7, 3)) }) {
        Reply::Send(m) => assert_eq!(
            m.message,
            Some(server_message::Message::AddResponse(AddResponse { result: -4 }))
        ),
        other => panic!("unexpected reply {:?}", other),
    }
}

#[test]
fn answers_larger_than_the_buffer_are_not_sent() {
    let bytes = encode(echo(&"x".repeat(600)));
    assert!(matches!(handle_request(&bytes[..]), RequestOutcome::TooLarge));
    assert!(matches!(
        after_read(ReadEvent::Received(bytes)),
        ReadStep::Unanswered(Unanswered::TooLarge)
    ));
    let fits = encode(echo(&"x".repeat(BUFFER_SIZE - 6)));
    assert_eq!(fits.len(), BUFFER_SIZE);
    assert!(matches!(handle_request(&fits[..]), RequestOutcome::Reply(_)));
}

#[test]
fn undecodable_reads_keep_the_connection() {
    assert!(matches!(handle_request(&[0xFF]), RequestOutcome::Undecodable));
    assert!(matches!(
        after_read(ReadEvent::Received(vec![0xFF])),
        ReadStep::Unanswered(Unanswered::Undecodable)
    ));
    // a message that carries nothing: field 3 only
    assert!(matches!(
        after_read(ReadEvent::Received(vec![0x18, 0x01])),
        ReadStep::Unanswered(Unanswered::NoContent)
    ));
}

#[test]
fn read_errors_and_timeouts() {
    assert!(matches!(after_read(ReadEvent::WouldBlock), ReadStep::Finish(HandleResult::KeepOpen)));
    assert!(matches!(after_read(ReadEvent::TimedOut), ReadStep::Finish(HandleResult::KeepOpen)));
    assert!(matches!(after_read(ReadEvent::Failed), ReadStep::Finish(HandleResult::Failed)));
    assert_eq!(after_second_read(&ReadEvent::Received(vec![1])), HandleResult::KeepOpen);
    assert_eq!(after_second_read(&ReadEvent::WouldBlock), HandleResult::Failed);
    assert_eq!(after_second_read(&ReadEvent::TimedOut), HandleResult::Failed);
    assert_eq!(after_second_read(&ReadEvent::Failed), HandleResult::Failed);
    assert!(HandleResult::KeepOpen.keeps_connection());
    assert!(!HandleResult::Disconnected.keeps_connection());
    assert!(!HandleResult::Failed.keeps_connection());
}

#[test]
fn server_lifecycle() {
    let mut server = ServerLifecycle::new();
    assert!(!server.is_running());
    assert!(!server.stops_on_drop());
    assert_eq!(server.begin_stop(), StopDecision::NotRunning);
    assert_eq!(server.begin_run(), RunDecision::Start);
    assert!(server.is_running());
    assert_eq!(server.begin_run(), RunDecision::AlreadyRunning);
    // no accept thread was recorded
    assert_eq!(server.begin_stop(), StopDecision::NoMainThread);
    assert_eq!(server.begin_stop(), StopDecision::NotRunning);
    assert_eq!(server.begin_run(), RunDecision::Start);
    server.main_thread_started();
    assert!(server.stops_on_drop());
    assert_eq!(server.begin_stop(), StopDecision::JoinMainThread);
    assert!(!server.is_running());
}

#[test]
fn accept_loop_steps() {
    assert_eq!(after_accept(AcceptEvent::Connected), AcceptStep::ServeClient);
    assert_eq!(after_accept(AcceptEvent::WouldBlock), AcceptStep::Pause);
    assert_eq!(after_accept(AcceptEvent::Failed), AcceptStep::ReportAndContinue);
    assert!(keep_accepting(true, false));
    assert!(!keep_accepting(true, true));
    assert!(!keep_accepting(false, false));
}

#[test]
fn server_messages_read_back() {
    let m = ServerMessage {
        message: Some(server_message::Message::EchoMessage(EchoMessage {
            content: "back".to_string(),
        })),
    };
    let bytes = m.encode_to_vec();
    assert_eq!(ServerMessage::decode(&bytes[..]).unwrap(), m);
    assert!(ServerMessage::decode(&[0x12, 0x02, 0x08]).is_err());
}

/// An echo whose body holds `depth` groups of field 2, each nested in the
/// one before.
fn nested_groups_echo(depth: usize) -> Vec<u8> {
    let len = 2 * depth;
    let mut bytes = vec![0x0A, (len as u8 & 0x7F) | 0x80, (len >> 7) as u8];
    bytes.extend(std::iter::repeat(0x13).take(depth));
    bytes.extend(std::iter::repeat(0x14).take(depth));
    bytes
}

#[test]
fn groups_nest_at_most_as_deep_as_prost_allows() {
    // inside a nested message, one level is taken by the message itself
    let too_deep = nested_groups_echo(100);
    assert!(ClientMessage::decode(&too_deep[..]).is_err());
    assert!(matches!(handle_request(&too_deep[..]), RequestOutcome::Undecodable));
    let deep_enough = nested_groups_echo(99);
    assert_eq!(ClientMessage::decode(&deep_enough[..]).unwrap().message, Some(echo("")));
    match handle_request(&deep_enough[..]) {
        RequestOutcome::Reply(payload) => assert_eq!(payload, vec![0x0A, 0x00]),
        other => panic!("unexpected outcome {:?}", other),
    }
    // at the top level a fresh context allows one level more
    let mut top = vec![0x1B; 100];
    top.extend(vec![0x1C; 100]);
    assert_eq!(ClientMessage::decode(&top[..]).unwrap().message, None);
    let mut top = vec![0x1B; 101];
    top.extend(vec![0x1C; 101]);
    assert!(ClientMessage::decode(&top[..]).is_err());
}
