//! What the server does with what it reads: the answer to each request, the
//! steps of handling one read from a client, and the start/stop rules of the
//! server itself.  Sockets, threads and timers belong to the caller, which
//! carries out the steps these functions choose.
use vstd::prelude::*;
use vstd::utf8::encode_utf8;
use crate::message::{
    add_response_body_bytes, client_message, client_message_bytes,
    server_message, server_message_bytes, AddResponse, ClientBody, ClientMessage, ServerBody,
    ServerMessage,
};
use crate::message::parse::{
    lemma_add_response_body_roundtrip, lemma_client_fields_echo_len, lemma_client_message_roundtrip,
    lemma_server_message_roundtrip, nested_budget, parse_client_message, parse_server_message, text_fits,
};
use crate::wire::{lemma_varint_len_bound, pow128};

verus! {

/// Size of the buffer a client's bytes are read into; no answer larger than
/// this is sent.
pub const BUFFER_SIZE: usize = 512;
/// Read and write timeout of a client connection, in seconds.
pub const CLIENT_TIMEOUT_SECS: u64 = 5;
/// Number of worker threads that serve clients.
pub const THREAD_POOL_SIZE: usize = 4;
/// Pause of the accept loop when no connection is waiting, in milliseconds.
pub const SHUTDOWN_CHECK_INTERVAL_MILLIS: u64 = 100;
/// Wait after an empty read before reading once more, in seconds.
pub const EMPTY_READ_WAIT_SECS: u64 = 2;

/// Whether `a + b` is an `i32`.
pub open spec fn sum_fits(a: i32, b: i32) -> bool {
    i32::MIN <= a + b <= i32::MAX
}

/// The answer to a request: the same text for an echo, the sum for an add;
/// `None` where the sum does not fit in an `i32`.
pub open spec fn response_of(body: ClientBody) -> Option<ServerBody> {
    match body {
        ClientBody::Echo { content } => Some(ServerBody::Echo { content }),
        ClientBody::Add { a, b } => if sum_fits(a, b) {
            Some(ServerBody::Sum { result: (a + b) as i32 })
        } else {
            None
        },
    }
}

/// What `respond` decides for one decoded request.
#[derive(Debug)]
pub enum Reply {
    /// Send this message back.
    Send(ServerMessage),
    /// The request carried nothing; nothing is sent.
    NoContent,
    /// The two numbers of an add request have no `i32` sum.
    AddOverflow,
}

/// The answer to a decoded request.
pub fn respond(request: ClientMessage) -> (r: Reply)
    ensures
        match request@ {
            None => r is NoContent,
            Some(body) => match response_of(body) {
                Some(answer) => r matches Reply::Send(m) && m@ == Some(answer),
                None => r is AddOverflow,
            },
        },
{
    match request.message {
        None => Reply::NoContent,
        Some(client_message::Message::EchoMessage(echo)) => Reply::Send(
            ServerMessage { message: Some(server_message::Message::EchoMessage(echo)) },
        ),
        Some(client_message::Message::AddRequest(add)) => match add.a.checked_add(add.b) {
            Some(result) => Reply::Send(
                ServerMessage {
                    message: Some(server_message::Message::AddResponse(AddResponse { result })),
                },
            ),
            None => Reply::AddOverflow,
        },
    }
}

/// What becomes of the bytes of one read, as a value.
pub enum OutcomeView {
    Undecodable,
    NoContent,
    AddOverflow,
    TooLarge,
    Reply(Seq<u8>),
}

/// What becomes of the bytes of one read.
#[derive(Debug)]
pub enum RequestOutcome {
    /// The bytes are not a `ClientMessage`; nothing is sent.
    Undecodable,
    /// The message carried nothing; nothing is sent.
    NoContent,
    /// An add request whose sum does not fit in an `i32`.
    AddOverflow,
    /// The answer would not fit in `BUFFER_SIZE` bytes; nothing is sent.
    TooLarge,
    /// Send these bytes back.
    Reply(Vec<u8>),
}

impl View for RequestOutcome {
    type V = OutcomeView;

    open spec fn view(&self) -> OutcomeView {
        match self {
            RequestOutcome::Undecodable => OutcomeView::Undecodable,
            RequestOutcome::NoContent => OutcomeView::NoContent,
            RequestOutcome::AddOverflow => OutcomeView::AddOverflow,
            RequestOutcome::TooLarge => OutcomeView::TooLarge,
            RequestOutcome::Reply(p) => OutcomeView::Reply(p@),
        }
    }
}

/// What the server does with the bytes `data` of one read.
pub open spec fn request_outcome(data: Seq<u8>) -> OutcomeView {
    match parse_client_message(data) {
        None => OutcomeView::Undecodable,
        Some(None) => OutcomeView::NoContent,
        Some(Some(body)) => match response_of(body) {
            None => OutcomeView::AddOverflow,
            Some(answer) => {
                let bytes = server_message_bytes(Some(answer));
                if bytes.len() > BUFFER_SIZE {
                    OutcomeView::TooLarge
                } else {
                    OutcomeView::Reply(bytes)
                }
            },
        },
    }
}

/// Decodes the bytes of one read, answers the request and encodes the answer.
pub fn handle_request(data: &[u8]) -> (r: RequestOutcome)
    ensures
        r@ == request_outcome(data@),
        r matches RequestOutcome::Reply(p) ==> p@.len() <= BUFFER_SIZE,
{
    let request = match ClientMessage::decode(data) {
        Ok(m) => m,
        Err(_) => return RequestOutcome::Undecodable,
    };
    match respond(request) {
        Reply::NoContent => RequestOutcome::NoContent,
        Reply::AddOverflow => RequestOutcome::AddOverflow,
        Reply::Send(response) => {
            let payload = response.encode_to_vec();
            if payload.len() > BUFFER_SIZE {
                RequestOutcome::TooLarge
            } else {
                RequestOutcome::Reply(payload)
            }
        },
    }
}

/// A text fits on the wire when the message that carries it does.
proof fn lemma_echo_bytes_len(content: Seq<char>)
    ensures
        encode_utf8(content).len() <= server_message_bytes(
            Some(ServerBody::Echo { content }),
        ).len(),
        server_message_bytes(Some(ServerBody::Echo { content })) == client_message_bytes(
            Some(ClientBody::Echo { content }),
        ),
{
}

/// The server echoes: a request that decodes to an echo of `content` is
/// answered with bytes that decode to an echo of that same `content`; the
/// answer is never longer than the request, so a request read into the
/// buffer is always answered.
pub proof fn lemma_echo_reply(data: Seq<u8>, content: Seq<char>)
    requires
        parse_client_message(data) == Some(Some(ClientBody::Echo { content })),
    ensures
        server_message_bytes(Some(ServerBody::Echo { content })).len() <= data.len(),
        data.len() <= BUFFER_SIZE ==> request_outcome(data) is Reply,
        request_outcome(data) is TooLarge || (request_outcome(data) matches OutcomeView::Reply(p)
            && parse_server_message(p) == Some(Some(ServerBody::Echo { content }))),
{
    let answer = Some(ServerBody::Echo { content });
    lemma_echo_bytes_len(content);
    lemma_client_fields_echo_len(data, None);
    if server_message_bytes(answer).len() <= BUFFER_SIZE {
        assert(text_fits(content));
        lemma_server_message_roundtrip(answer);
    }
}

/// A client that sends an echo request as prost writes it gets back exactly
/// the bytes it sent, whenever they fit in the buffer.
pub proof fn lemma_echo_request_mirrored(content: Seq<char>)
    requires
        client_message_bytes(Some(ClientBody::Echo { content })).len() <= BUFFER_SIZE,
    ensures
        request_outcome(client_message_bytes(Some(ClientBody::Echo { content })))
            == OutcomeView::Reply(client_message_bytes(Some(ClientBody::Echo { content }))),
{
    lemma_echo_bytes_len(content);
    assert(text_fits(content));
    lemma_client_message_roundtrip(Some(ClientBody::Echo { content }));
}

/// The server adds: a request that decodes to an add of `a` and `b` whose sum
/// is an `i32` is answered with bytes that decode to that sum.
pub proof fn lemma_add_reply(data: Seq<u8>, a: i32, b: i32)
    requires
        parse_client_message(data) == Some(Some(ClientBody::Add { a, b })),
        sum_fits(a, b),
    ensures
        request_outcome(data) matches OutcomeView::Reply(p) && parse_server_message(p) == Some(
            Some(ServerBody::Sum { result: (a + b) as i32 }),
        ),
{
    let result = (a + b) as i32;
    let answer = Some(ServerBody::Sum { result });
    lemma_add_response_body_roundtrip(result, nested_budget());
    let body = add_response_body_bytes(result);
    assert(pow128(1) == 128) by {
        reveal_with_fuel(pow128, 2);
    }
    lemma_varint_len_bound(body.len(), 1);
    lemma_varint_len_bound(16 + 2, 1);
    assert(server_message_bytes(answer).len() <= BUFFER_SIZE);
    lemma_server_message_roundtrip(answer);
}

/// A request that decodes to an add whose sum is not an `i32` is refused as
/// an overflow.
pub proof fn lemma_add_overflow(data: Seq<u8>, a: i32, b: i32)
    requires
        parse_client_message(data) == Some(Some(ClientBody::Add { a, b })),
        !sum_fits(a, b),
    ensures
        request_outcome(data) is AddOverflow,
{
}

/// The result of one read from a client, as the socket reported it.
pub enum ReadEvent {
    /// The read returned these bytes; none at all means the peer sent nothing.
    Received(Vec<u8>),
    /// The socket had nothing ready.
    WouldBlock,
    /// The read timed out.
    TimedOut,
    /// Any other error.
    Failed,
}

/// How one round of handling a client ends: keep serving it, it has gone,
/// or an error.
#[derive(Clone, Copy, Debug, PartialEq, Eq)]
pub enum HandleResult {
    KeepOpen,
    Disconnected,
    Failed,
}

impl HandleResult {
    /// Whether the connection is to be served again.
    pub fn keeps_connection(&self) -> (r: bool)
        ensures
            r == (*self == HandleResult::KeepOpen),
    {
        match self {
            HandleResult::KeepOpen => true,
            _ => false,
        }
    }
}

/// What to do after the first read of a round.
#[derive(Debug)]
pub enum ReadStep {
    /// Write these bytes to the client and flush; the round then keeps the
    /// connection, unless writing or flushing fails.
    Write(Vec<u8>),
    /// Nothing was read: wait `EMPTY_READ_WAIT_SECS` and read once more.
    WaitAndReadAgain,
    /// The bytes read get no answer; the round ends keeping the connection.
    Unanswered(Unanswered),
    /// The round ends here.
    Finish(HandleResult),
    /// An add request whose sum does not fit in an `i32`.
    AddOverflow,
}

/// Why bytes that were read get no answer.
#[derive(Clone, Copy, Debug, PartialEq, Eq)]
pub enum Unanswered {
    /// They are not a `ClientMessage`.
    Undecodable,
    /// The message carries nothing.
    NoContent,
    /// The answer would not fit in `BUFFER_SIZE` bytes.
    TooLarge,
}

/// Chooses what follows the first read of a round.
pub fn after_read(event: ReadEvent) -> (r: ReadStep)
    ensures
        match event {
            ReadEvent::Received(data) => if data@.len() == 0 {
                r is WaitAndReadAgain
            } else {
                match request_outcome(data@) {
                    OutcomeView::Reply(p) => r matches ReadStep::Write(w) && w@ == p,
                    OutcomeView::AddOverflow => r is AddOverflow,
                    OutcomeView::Undecodable => r == ReadStep::Unanswered(Unanswered::Undecodable),
                    OutcomeView::NoContent => r == ReadStep::Unanswered(Unanswered::NoContent),
                    OutcomeView::TooLarge => r == ReadStep::Unanswered(Unanswered::TooLarge),
                }
            },
            ReadEvent::WouldBlock | ReadEvent::TimedOut => r == ReadStep::Finish(
                HandleResult::KeepOpen,
            ),
            ReadEvent::Failed => r == ReadStep::Finish(HandleResult::Failed),
        },
{
    match event {
        ReadEvent::Received(data) => {
            if data.len() == 0 {
                ReadStep::WaitAndReadAgain
            } else {
                match handle_request(data.as_slice()) {
                    RequestOutcome::Reply(payload) => ReadStep::Write(payload),
                    RequestOutcome::AddOverflow => ReadStep::AddOverflow,
                    RequestOutcome::Undecodable => ReadStep::Unanswered(Unanswered::Undecodable),
                    RequestOutcome::NoContent => ReadStep::Unanswered(Unanswered::NoContent),
                    RequestOutcome::TooLarge => ReadStep::Unanswered(Unanswered::TooLarge),
                }
            }
        },
        ReadEvent::WouldBlock => ReadStep::Finish(HandleResult::KeepOpen),
        ReadEvent::TimedOut => ReadStep::Finish(HandleResult::KeepOpen),
        ReadEvent::Failed => ReadStep::Finish(HandleResult::Failed),
    }
}

/// Ends a round after the second read, made after an empty one: nothing
/// again means the client has gone; bytes mean it is still there (they are
/// not answered); any error ends the round with that error.
pub fn after_second_read(event: &ReadEvent) -> (r: HandleResult)
    ensures
        r == match event {
            ReadEvent::Received(data) => if data@.len() == 0 {
                HandleResult::Disconnected
            } else {
                HandleResult::KeepOpen
            },
            _ => HandleResult::Failed,
        },
{
    match event {
        ReadEvent::Received(data) => {
            if data.len() == 0 {
                HandleResult::Disconnected
            } else {
                HandleResult::KeepOpen
            }
        },
        _ => HandleResult::Failed,
    }
}

/// The run/stop state of a server, as a value.
pub struct LifecycleView {
    pub running: bool,
    pub main_thread: bool,
}

/// The run/stop state of a server: whether it is running, and whether it
/// holds the handle of its accept thread.
#[derive(Debug)]
pub struct ServerLifecycle {
    running: bool,
    main_thread: bool,
}

impl View for ServerLifecycle {
    type V = LifecycleView;

    closed spec fn view(&self) -> LifecycleView {
        LifecycleView { running: self.running, main_thread: self.main_thread }
    }
}

/// What `run` decides.
#[derive(Clone, Copy, Debug, PartialEq, Eq)]
pub enum RunDecision {
    /// The server already runs; nothing is started.
    AlreadyRunning,
    /// Start the accept thread.
    Start,
}

/// What `stop` decides.
#[derive(Clone, Copy, Debug, PartialEq, Eq)]
pub enum StopDecision {
    /// The server does not run; nothing is done.
    NotRunning,
    /// The server is now stopped; wait for the accept thread to end.
    JoinMainThread,
    /// The server is now stopped, but there is no accept thread to wait for.
    NoMainThread,
}

/// The state after `run`: running.
pub open spec fn run_state(s: LifecycleView) -> LifecycleView {
    LifecycleView { running: true, main_thread: s.main_thread }
}

/// The decision of `run` in state `s`.
pub open spec fn run_decision(s: LifecycleView) -> RunDecision {
    if s.running {
        RunDecision::AlreadyRunning
    } else {
        RunDecision::Start
    }
}

/// The state after `stop`: unchanged if it was not running; otherwise not
/// running and without an accept thread.
pub open spec fn stop_state(s: LifecycleView) -> LifecycleView {
    if !s.running {
        s
    } else {
        LifecycleView { running: false, main_thread: false }
    }
}

/// The decision of `stop` in state `s`.
pub open spec fn stop_decision(s: LifecycleView) -> StopDecision {
    if !s.running {
        StopDecision::NotRunning
    } else if s.main_thread {
        StopDecision::JoinMainThread
    } else {
        StopDecision::NoMainThread
    }
}

/// A server holds the handle of an accept thread only while it runs.
pub open spec fn lifecycle_wf(s: LifecycleView) -> bool {
    s.main_thread ==> s.running
}

/// The state once the accept thread has been started.
pub open spec fn started_state(s: LifecycleView) -> LifecycleView {
    LifecycleView { running: s.running, main_thread: true }
}

impl ServerLifecycle {
    /// An accept thread is recorded only while the server runs.
    #[verifier::type_invariant]
    spec fn thread_only_while_running(self) -> bool {
        self.main_thread ==> self.running
    }

    /// A server that is not running and has no accept thread.
    pub fn new() -> (r: ServerLifecycle)
        ensures
            !r@.running && !r@.main_thread,
            lifecycle_wf(r@),
    {
        ServerLifecycle { running: false, main_thread: false }
    }

    /// Whether the server runs.
    pub fn is_running(&self) -> (r: bool)
        ensures
            r == self@.running,
            lifecycle_wf(self@),
    {
        proof {
            use_type_invariant(self);
        }
        self.running
    }

    /// `run`: a running server is left as it is; otherwise it is marked
    /// running and its accept thread is to be started.
    pub fn begin_run(&mut self) -> (r: RunDecision)
        ensures
            r == run_decision(old(self)@),
            final(self)@ == run_state(old(self)@),
            lifecycle_wf(final(self)@),
            old(self)@.running ==> r == RunDecision::AlreadyRunning && final(self)@ == old(self)@,
            !old(self)@.running ==> r == RunDecision::Start && final(self)@.running
                && final(self)@.main_thread == old(self)@.main_thread,
    {
        if self.running {
            RunDecision::AlreadyRunning
        } else {
            self.running = true;
            RunDecision::Start
        }
    }

    /// Records that the accept thread has been started; it is started only
    /// by `run`, on a server that runs.
    pub fn main_thread_started(&mut self)
        requires
            old(self)@.running,
        ensures
            final(self)@ == started_state(old(self)@),
            lifecycle_wf(final(self)@),
    {
        self.main_thread = true;
    }

    /// `stop`: a server that does not run is left as it is; otherwise it is
    /// marked stopped, and its accept thread, if it has one, is handed over
    /// to be waited for.
    pub fn begin_stop(&mut self) -> (r: StopDecision)
        ensures
            r == stop_decision(old(self)@),
            final(self)@ == stop_state(old(self)@),
            old(self)@.running ==> !final(self)@.running && !final(self)@.main_thread && (r
                == StopDecision::JoinMainThread) == old(self)@.main_thread,
            !old(self)@.running ==> r == StopDecision::NotRunning && final(self)@ == old(self)@,
            lifecycle_wf(old(self)@),
            lifecycle_wf(final(self)@),
    {
        proof {
            use_type_invariant(&*self);
        }
        if !self.running {
            StopDecision::NotRunning
        } else {
            if self.main_thread {
                self.main_thread = false;
                self.running = false;
                StopDecision::JoinMainThread
            } else {
                self.running = false;
                StopDecision::NoMainThread
            }
        }
    }

    /// Whether dropping the server has to stop it first.
    pub fn stops_on_drop(&self) -> (r: bool)
        ensures
            r == self@.running,
            lifecycle_wf(self@),
    {
        proof {
            use_type_invariant(self);
        }
        self.running
    }
}

/// `run` twice in a row starts the accept thread at most once: the second
/// call finds the server running and changes nothing.
pub proof fn lemma_run_idempotent(s: LifecycleView)
    ensures
        run_decision(run_state(s)) == RunDecision::AlreadyRunning,
        run_state(run_state(s)) == run_state(s),
{
}

/// `stop` twice in a row: the second call finds the server stopped and
/// changes nothing.
pub proof fn lemma_stop_idempotent(s: LifecycleView)
    ensures
        stop_decision(stop_state(s)) == StopDecision::NotRunning,
        stop_state(stop_state(s)) == stop_state(s),
{
}

/// Starting a stopped server and then stopping it waits for the accept
/// thread that was started, and leaves the server stopped without one.
pub proof fn lemma_run_then_stop(s: LifecycleView)
    requires
        !s.running,
    ensures
        run_decision(s) == RunDecision::Start,
        stop_decision(started_state(run_state(s))) == StopDecision::JoinMainThread,
        stop_state(started_state(run_state(s))) == (LifecycleView {
            running: false,
            main_thread: false,
        }),
{
}

/// `run` on a running server, whether or not its accept thread is recorded,
/// starts nothing and changes nothing.
pub proof fn law_run_on_running_server_changes_nothing(s: LifecycleView)
    requires
        s.running,
    ensures
        run_decision(s) == RunDecision::AlreadyRunning,
        run_state(s) == s,
{
}

/// `run` on a stopped server starts the accept thread and marks the server
/// running, leaving what it records of a thread as it was.
pub proof fn law_run_on_stopped_server_starts(s: LifecycleView)
    requires
        !s.running,
    ensures
        run_decision(s) == RunDecision::Start,
        run_state(s).running,
        run_state(s).main_thread == s.main_thread,
{
}

/// `stop` on a running server marks it stopped and hands over the accept
/// thread exactly when one is recorded; on a stopped server it does nothing.
pub proof fn law_stop(s: LifecycleView)
    ensures
        s.running ==> !stop_state(s).running && !stop_state(s).main_thread && (stop_decision(s)
            == StopDecision::JoinMainThread) == s.main_thread && stop_decision(s)
            != StopDecision::NotRunning,
        !s.running ==> stop_decision(s) == StopDecision::NotRunning && stop_state(s) == s,
{
}

/// Every accept thread that a server records is waited for by its next
/// stop, which leaves none recorded.
pub proof fn lemma_stop_joins_recorded_thread(s: LifecycleView)
    requires
        lifecycle_wf(s),
        s.main_thread,
    ensures
        stop_decision(s) == StopDecision::JoinMainThread,
        !stop_state(s).main_thread && !stop_state(s).running,
{
}

/// Every step keeps an accept thread recorded only while the server runs.
pub proof fn lemma_steps_keep_wf(s: LifecycleView)
    requires
        lifecycle_wf(s),
    ensures
        lifecycle_wf(run_state(s)),
        lifecycle_wf(stop_state(s)),
        run_state(s).running ==> lifecycle_wf(started_state(run_state(s))),
{
}

/// Whether the accept loop goes on: while the server runs and no shutdown
/// signal has arrived.
pub fn keep_accepting(running: bool, shutdown_signalled: bool) -> (r: bool)
    ensures
        r == (running && !shutdown_signalled),
{
    running && !shutdown_signalled
}

/// The result of one `accept` on the non-blocking listener.
pub enum AcceptEvent {
    Connected,
    WouldBlock,
    Failed,
}

/// What the accept loop does next.
#[derive(Clone, Copy, Debug, PartialEq, Eq)]
pub enum AcceptStep {
    /// Hand the new connection to a worker.
    ServeClient,
    /// Nothing waiting: pause `SHUTDOWN_CHECK_INTERVAL_MILLIS`.
    Pause,
    /// An accept error: report it and go on.
    ReportAndContinue,
}

/// Chooses what follows one `accept`.
pub fn after_accept(event: AcceptEvent) -> (r: AcceptStep)
    ensures
        r == match event {
            AcceptEvent::Connected => AcceptStep::ServeClient,
            AcceptEvent::WouldBlock => AcceptStep::Pause,
            AcceptEvent::Failed => AcceptStep::ReportAndContinue,
        },
{
    match event {
        AcceptEvent::Connected => AcceptStep::ServeClient,
        AcceptEvent::WouldBlock => AcceptStep::Pause,
        AcceptEvent::Failed => AcceptStep::ReportAndContinue,
    }
}

} // verus!
