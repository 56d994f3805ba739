//! Request handling for a small TCP echo/add service whose messages are
//! protobuf-encoded.  The library holds the wire format of the messages,
//! the request/response rules and the decisions of the connection and
//! server lifecycle; the sockets and threads live with the caller.
pub mod wire;
pub mod message;
pub mod server;
