use embedded_recruitment_task::message::{
    client_message, server_message, AddRequest, ClientMessage, EchoMessage, ServerMessage,
};
use embedded_recruitment_task::server::{
    after_read, after_second_read, HandleResult, ReadEvent, ReadStep, ServerLifecycle,
    StopDecision, RunDecision,
};

/// What a client puts on the wire for `message`.
fn client_bytes(message: client_message::Message) -> Vec<u8> {
    ClientMessage { message: Some(message) }.encode_to_vec()
}

/// The server's side of one round: the bytes it writes back, if any.
fn serve_round(data: Vec<u8>) -> Option<Vec<u8>> {
    match after_read(ReadEvent::Received(data)) {
        ReadStep::Write(payload) => Some(payload),
        _ => None,
    }
}

/// Sends `message`, lets the server answer, and decodes the answer.
fn round_trip(message: client_message::Message) -> ServerMessage {
    let reply = serve_round(client_bytes(message)).expect("Failed to receive response");
    ServerMessage::decode(&reply[..]).expect("Failed to receive response")
}

/// The server handles a client that connects and then closes the connection:
/// an empty read, a wait, a second empty read, and the client is gone.
#[test]
fn test_client_connection() {
    let mut server = ServerLifecycle::new();
    assert_eq!(server.begin_run(), RunDecision::Start);
    server.main_thread_started();

    assert!(matches!(after_read(ReadEvent::Received(Vec::new())), ReadStep::WaitAndReadAgain));
    assert_eq!(after_second_read(&ReadEvent::Received(Vec::new())), HandleResult::Disconnected);

    assert_eq!(server.begin_stop(), StopDecision::JoinMainThread, "Failed to stop the server");
}

#[test]
fn test_client_echo_message() {
    let mut echo_message = EchoMessage::default();
    echo_message.content = "Hello, World!".to_string();
    let message = client_message::Message::EchoMessage(echo_message.clone());

    let response = round_trip(message);
    match response.message {
        Some(server_message::Message::EchoMessage(echo)) => {
            assert_eq!(echo.content, echo_message.content, "Echoed content mismatch");
        }
        _ => panic!("Expected EchoMessage, but received a different message"),
    }
}

#[test]
fn test_multiple_echo_messages() {
    let messages = vec![
        "Hello, World!".to_string(),
        "How are you?".to_string(),
        "Goodbye!".to_string(),
    ];
    for message_content in messages {
        let mut echo_message = EchoMessage::default();
        echo_message.content = message_content.clone();
        let message = client_message::Message::EchoMessage(echo_message);
        match round_trip(message).message {
            Some(server_message::Message::EchoMessage(echo)) => {
                assert_eq!(echo.content, message_content, "Echoed message content does not match");
            }
            _ => panic!("Expected EchoMessage, but received a different message"),
        }
    }
}

#[test]
fn test_multiple_clients() {
    let messages = vec![
        "Hello, World!".to_string(),
        "How are you?".to_string(),
        "Goodbye!".to_string(),
    ];
    for message_content in messages {
        let mut echo_message = EchoMessage::default();
        echo_message.content = message_content.clone();
        let message = client_message::Message::EchoMessage(echo_message.clone());
        for _client in 0..3 {
            match round_trip(message.clone()).message {
                Some(server_message::Message::EchoMessage(echo)) => {
                    assert_eq!(
                        echo.content, message_content,
                        "Echoed message content does not match"
                    );
                }
                _ => panic!("Expected EchoMessage, but received a different message"),
            }
        }
    }
}

#[test]
fn test_client_add_request() {
    let mut add_request = AddRequest::default();
    add_request.a = 10;
    add_request.b = 20;
    let message = client_message::Message::AddRequest(add_request.clone());
    match round_trip(message).message {
        Some(server_message::Message::AddResponse(add_response)) => {
            assert_eq!(
                add_response.result,
                add_request.a + add_request.b,
                "AddResponse result does not match"
            );
            assert_eq!(add_response.result, 30);
        }
        _ => panic!("Expected AddResponse, but received a different message"),
    }
}

#[test]
fn test_sequential_clients() {
    for i in 1..=5 {
        let mut echo_message = EchoMessage::default();
        echo_message.content = format!("Message from client {}", i);
        let message = client_message::Message::EchoMessage(echo_message.clone());
        match round_trip(message).message {
            Some(server_message::Message::EchoMessage(echo)) => {
                assert_eq!(
                    echo.content, echo_message.content,
                    "Client {} received incorrect response",
                    i
                );
            }
            _ => panic!("Client {} received unexpected message type", i),
        }
        assert!(matches!(after_read(ReadEvent::Received(Vec::new())), ReadStep::WaitAndReadAgain));
        assert_eq!(after_second_read(&ReadEvent::Received(Vec::new())), HandleResult::Disconnected);
    }
}

/// A client sends a message and then shuts its socket down: the server
/// answers, then reads nothing twice and lets the client go; a failed read
/// ends the round with an error instead.
#[test]
fn test_abrupt_client_disconnect() {
    let mut echo_message = EchoMessage::default();
    echo_message.content = "Test abrupt disconnect".to_string();
    let message = client_message::Message::EchoMessage(echo_message.clone());
    assert!(serve_round(client_bytes(message)).is_some(), "Failed to send message");

    assert!(matches!(after_read(ReadEvent::Received(Vec::new())), ReadStep::WaitAndReadAgain));
    assert_eq!(after_second_read(&ReadEvent::Received(Vec::new())), HandleResult::Disconnected);
    assert!(matches!(after_read(ReadEvent::Failed), ReadStep::Finish(HandleResult::Failed)));

    let mut server = ServerLifecycle::new();
    server.begin_run();
    server.main_thread_started();
    assert_eq!(server.begin_stop(), StopDecision::JoinMainThread, "Failed to stop the server");
}

#[test]
fn test_high_load_with_varying_message_sizes() {
    for i in 0..50 {
        let content = "A".repeat(10 + (i * 10));
        let mut echo_message = EchoMessage::default();
        echo_message.content = content.clone();
        let message = client_message::Message::EchoMessage(echo_message);
        match round_trip(message).message {
            Some(server_message::Message::EchoMessage(echo)) => {
                assert_eq!(echo.content, content, "Message content mismatch");
            }
            _ => panic!("Unexpected message type"),
        }
    }
}
