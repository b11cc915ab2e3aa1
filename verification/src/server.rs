//! The host: how it is set up, and what its workers do at each event.

use vstd::prelude::*;

verus! {

/// The length in bytes that a message may have at most.
pub const MESSAGE_LENGTH_LIMIT: u64 = 128000000;

/// Why a message is rejected before it is read.
#[derive(Clone, Copy, Debug, PartialEq, Eq, Structural)]
pub enum LengthError {
    /// The message is longer than [`MESSAGE_LENGTH_LIMIT`].
    TooLong,
}

impl LengthError {
    /// The error in words.
    pub fn text(&self) -> (text: &'static str)
        ensures
            text@ == "Message length is too long, rejecting request."@,
    {
        "Message length is too long, rejecting request."
    }
}

/// Checks the length that was read ahead of a message.
pub fn read_message_length(message_length: u64) -> (length: Result<u64, LengthError>)
    ensures
        length == if message_length > MESSAGE_LENGTH_LIMIT {
            Err::<u64, LengthError>(LengthError::TooLong)
        } else {
            Ok::<u64, LengthError>(message_length)
        },
        message_length <= 128_000_000 ==> length == Ok::<u64, LengthError>(message_length),
        message_length > 128_000_000 ==> length == Err::<u64, LengthError>(LengthError::TooLong),
{
    if message_length > MESSAGE_LENGTH_LIMIT {
        Err(LengthError::TooLong)
    } else {
        Ok(message_length)
    }
}

/// How the host is set up.
pub struct ServerSettings {
    /// The names that the certificate of the host is for.
    pub certificate_names: Vec<String>,
    /// The certificate, in DER.
    pub certificate: Vec<u8>,
    /// The private key of the certificate, as PKCS #8 in DER.
    pub private_key: Vec<u8>,
    /// The streams in one direction that a client may have open at the same time.
    pub max_concurrent_uni_streams: u8,
    /// The seconds after which a silent connection is closed.
    pub max_idle_timeout_secs: u64,
}

/// Why the host cannot be set up.
#[derive(Clone, Copy, Debug, PartialEq, Eq, Structural)]
pub enum ConfigError {
    /// No certificate could be made.
    NoCertificate,
}

/// `rcgen::Error`: why no certificate could be made.
#[verifier::external_type_specification]
#[verifier::external_body]
pub struct ExRcgenError(rcgen::Error);

/// Whether a text is made of ASCII characters alone.
pub open spec fn is_ascii_text(text: Seq<char>) -> bool {
    forall|i: int| 0 <= i < text.len() ==> (#[trigger] text[i] as int) < 128
}

/// Whether a text holds a letter that no IP address is written with.
pub open spec fn is_no_address(text: Seq<char>) -> bool {
    exists|i: int| 0 <= i < text.len() && 'g' <= #[trigger] text[i] <= 'z'
}

/// Whether bytes hold others, in one piece.
pub open spec fn holds(bytes: Seq<u8>, part: Seq<u8>) -> bool {
    exists|start: int|
        0 <= start && start + part.len() <= bytes.len() && #[trigger] bytes.subrange(
            start,
            start + part.len(),
        ) == part
}

/// A name as an entry of the list of names in a certificate: its tag, its length and the ASCII
/// characters.
pub open spec fn name_entry(name: Seq<char>) -> Seq<u8> {
    seq![0x82u8, name.len() as u8] + name.map_values(|c: char| c as u8)
}

/// The entries of names in the list of names in a certificate.
pub open spec fn name_entries(names: Seq<String>) -> Seq<u8>
    decreases names.len(),
{
    if names.len() == 0 {
        Seq::empty()
    } else {
        name_entries(names.drop_last()) + name_entry(names.last()@)
    }
}

/// Whether a certificate holds a list of names that is made of exactly these.
pub open spec fn is_for_names(certificate: Seq<u8>, names: Seq<String>) -> bool {
    holds(certificate, seq![0x30u8, name_entries(names).len() as u8] + name_entries(names))
}

/// Whether a private key is that of a certificate: the public half, with which the 138 bytes of a
/// P-256 key end, stands in the certificate.
pub open spec fn is_key_of(certificate: Seq<u8>, private_key: Seq<u8>) -> bool {
    private_key.len() == 138 && holds(certificate, private_key.skip(73))
}

/// A new certificate for names, signed by its own key, and that key, from
/// `rcgen::generate_simple_self_signed`. A name that is not ASCII gets no certificate. The
/// certificate holds the list of the names, where none is an IP address and the length of the list
/// takes one byte, and the public half of the key, which stands at the end of the key's 138 bytes.
/// The key is drawn at random: nothing more is claimed of the bytes, nor that there is a
/// certificate.
#[verifier::external_body]
fn self_signed(names: Vec<String>) -> (made: Result<(Vec<u8>, Vec<u8>), rcgen::Error>)
    ensures
        made is Ok ==> forall|i: int|
            0 <= i < names@.len() ==> is_ascii_text((#[trigger] names@[i])@),
        made matches Ok((certificate, _)) ==> (names@.len() > 0 && name_entries(names@).len() < 128
            && forall|i: int| 0 <= i < names@.len() ==> is_no_address((#[trigger] names@[i])@))
            ==> is_for_names(certificate@, names@),
        made matches Ok((certificate, private_key)) ==> is_key_of(certificate@, private_key@),
{
    let made = rcgen::generate_simple_self_signed(names)?;
    Ok((made.cert.der().to_vec(), made.key_pair.serialize_der()))
}

/// The names that the certificate of the host is for: the local machine alone.
fn certificate_names() -> (names: Vec<String>)
    ensures
        names@.len() == 1,
        names@[0]@ == "localhost"@,
{
    let mut names: Vec<String> = Vec::new();
    names.push("localhost".to_owned());
    names
}

/// Whether the host is set up as it has to be: for the local machine, without streams in one
/// direction, and with connections that stay open through two hours of silence.
pub open spec fn is_set_up(settings: ServerSettings) -> bool {
    &&& settings.certificate_names@.len() == 1
    &&& settings.certificate_names@[0]@ == "localhost"@
    &&& settings.max_concurrent_uni_streams == 0
    &&& settings.max_idle_timeout_secs == 2 * 60 * 60
}

/// How the host is set up with a certificate and its key, if they could be made.
pub fn server_settings(made: Option<(Vec<u8>, Vec<u8>)>) -> (settings: Result<
    ServerSettings,
    ConfigError,
>)
    ensures
        match (made, settings) {
            (Some((certificate, private_key)), Ok(settings)) => {
                &&& is_set_up(settings)
                &&& settings.certificate@ == certificate@
                &&& settings.private_key@ == private_key@
            },
            (None, Err(error)) => error == ConfigError::NoCertificate,
            _ => false,
        },
{
    match made {
        Some((certificate, private_key)) => Ok(
            ServerSettings {
                certificate_names: certificate_names(),
                certificate,
                private_key,
                max_concurrent_uni_streams: 0,
                max_idle_timeout_secs: 2 * 60 * 60,
            },
        ),
        None => Err(ConfigError::NoCertificate),
    }
}

proof fn lemma_one_name_entry(names: Seq<String>)
    requires
        names.len() == 1,
    ensures
        name_entries(names) == name_entry(names[0]@),
{
    reveal_with_fuel(name_entries, 2);
    assert(name_entries(names) =~= name_entry(names[0]@));
}

/// How the host is set up, with a certificate that is made for the local machine. The certificate
/// is insecure: nobody but the host itself vouches for it.
pub fn configure_server() -> (settings: Result<ServerSettings, ConfigError>)
    ensures
        match settings {
            Ok(settings) => {
                &&& is_set_up(settings)
                &&& is_for_names(settings.certificate@, settings.certificate_names@)
                &&& is_key_of(settings.certificate@, settings.private_key@)
            },
            Err(error) => error == ConfigError::NoCertificate,
        },
{
    let names = certificate_names();
    let ghost handed = names@;
    proof {
        reveal_strlit("localhost");
        assert('g' <= handed[0]@[0] <= 'z');
        lemma_one_name_entry(handed);
    }
    match self_signed(names) {
        Ok(made) => {
            let settings = server_settings(Some(made));
            proof {
                lemma_one_name_entry(settings->Ok_0.certificate_names@);
            }
            settings
        },
        Err(_) => server_settings(None),
    }
}

/// An IPv6 address, as eight groups, with a port.
#[derive(Clone, Copy, Debug, PartialEq, Eq)]
pub struct ListenAddress {
    pub groups: [u16; 8],
    pub port: u16,
}

/// The address to host at: of the local machine alone, or of all its networks.
pub fn listen_address(port: u16, local_only: bool) -> (address: ListenAddress)
    ensures
        address.port == port,
        forall|i: int| 0 <= i < 7 ==> #[trigger] address.groups@[i] == 0,
        address.groups@[7] == if local_only {
            1u16
        } else {
            0u16
        },
{
    if local_only {
        ListenAddress { groups: [0, 0, 0, 0, 0, 0, 0, 1], port }
    } else {
        ListenAddress { groups: [0, 0, 0, 0, 0, 0, 0, 0], port }
    }
}

/// Where the worker stands that takes in clients.
#[derive(Clone, Copy, Debug, PartialEq, Eq, Structural)]
pub enum AcceptorState {
    /// It waits for a client, or to be cancelled.
    Listening,
    /// It accepts a client that came in.
    Accepting,
    /// It waits for the handshake with a client.
    Connecting,
    /// It waits to be cancelled.
    Closing,
    /// It is done.
    Stopped,
}

/// What happens to the worker that takes in clients.
#[derive(Clone, Copy, Debug, PartialEq, Eq, Structural)]
pub enum AcceptorEvent {
    /// A client came in.
    Incoming,
    /// No more clients will come in.
    EndpointClosed,
    /// The client was accepted, or could not be.
    Accepted(bool),
    /// The handshake with the client succeeded, or failed.
    Connected(bool),
    /// The host is shut down.
    Cancelled,
}

/// What the worker that takes in clients does next.
#[derive(Clone, Copy, Debug, PartialEq, Eq, Structural)]
pub enum AcceptorAction {
    /// Wait for the next event.
    Wait,
    /// Accept the client.
    Accept,
    /// Wait for the handshake with the client.
    Handshake,
    /// Open a stream to the client and start its workers, then wait for the next client.
    Serve,
    /// Give the client up, then wait for the next one.
    GiveUp,
    /// End.
    Stop,
}

/// What the worker that takes in clients does at an event. It sees that the host is shut down
/// only while it waits for a client.
pub open spec fn acceptor_next(
    state: AcceptorState,
    event: AcceptorEvent,
) -> (AcceptorState, AcceptorAction) {
    match (state, event) {
        (AcceptorState::Listening, AcceptorEvent::Incoming) => (
            AcceptorState::Accepting,
            AcceptorAction::Accept,
        ),
        (AcceptorState::Listening, AcceptorEvent::EndpointClosed) => (
            AcceptorState::Closing,
            AcceptorAction::Wait,
        ),
        (AcceptorState::Accepting, AcceptorEvent::Accepted(true)) => (
            AcceptorState::Connecting,
            AcceptorAction::Handshake,
        ),
        (AcceptorState::Accepting, AcceptorEvent::Accepted(false)) => (
            AcceptorState::Listening,
            AcceptorAction::GiveUp,
        ),
        (AcceptorState::Connecting, AcceptorEvent::Connected(true)) => (
            AcceptorState::Listening,
            AcceptorAction::Serve,
        ),
        (AcceptorState::Connecting, AcceptorEvent::Connected(false)) => (
            AcceptorState::Listening,
            AcceptorAction::GiveUp,
        ),
        (AcceptorState::Listening, AcceptorEvent::Cancelled) => (
            AcceptorState::Stopped,
            AcceptorAction::Stop,
        ),
        (AcceptorState::Closing, AcceptorEvent::Cancelled) => (
            AcceptorState::Stopped,
            AcceptorAction::Stop,
        ),
        _ => (state, AcceptorAction::Wait),
    }
}

/// Takes an event of the worker that takes in clients.
pub fn acceptor_step(
    state: AcceptorState,
    event: AcceptorEvent,
) -> (next: (AcceptorState, AcceptorAction))
    ensures
        next == acceptor_next(state, event),
{
    match (state, event) {
        (AcceptorState::Listening, AcceptorEvent::Incoming) => (
            AcceptorState::Accepting,
            AcceptorAction::Accept,
        ),
        (AcceptorState::Listening, AcceptorEvent::EndpointClosed) => (
            AcceptorState::Closing,
            AcceptorAction::Wait,
        ),
        (AcceptorState::Accepting, AcceptorEvent::Accepted(accepted)) => if accepted {
            (AcceptorState::Connecting, AcceptorAction::Handshake)
        } else {
            (AcceptorState::Listening, AcceptorAction::GiveUp)
        },
        (AcceptorState::Connecting, AcceptorEvent::Connected(connected)) => if connected {
            (AcceptorState::Listening, AcceptorAction::Serve)
        } else {
            (AcceptorState::Listening, AcceptorAction::GiveUp)
        },
        (AcceptorState::Listening, AcceptorEvent::Cancelled) => (
            AcceptorState::Stopped,
            AcceptorAction::Stop,
        ),
        (AcceptorState::Closing, AcceptorEvent::Cancelled) => (
            AcceptorState::Stopped,
            AcceptorAction::Stop,
        ),
        _ => (state, AcceptorAction::Wait),
    }
}

/// Where the worker stands that reads the messages of a client.
#[derive(Clone, Copy, Debug, PartialEq, Eq, Structural)]
pub enum ListenerState {
    /// It waits for the length of a message, or to be cancelled.
    AwaitingLength,
    /// It reads a message of a length.
    AwaitingBody(u64),
    /// It decodes a message.
    Decoding,
    /// It reads nothing more, and waits to be cancelled.
    Blocked,
    /// It is done.
    Stopped,
}

/// What happens to the worker that reads the messages of a client.
#[derive(Clone, Copy, Debug, PartialEq, Eq, Structural)]
pub enum ListenerEvent {
    /// The length of a message was read.
    LengthRead(u64),
    /// The length of a message could not be read.
    LengthFailed,
    /// The message was read, or could not be.
    BodyRead(bool),
    /// The message was decoded, or is malformed.
    Decoded(bool),
    /// The host is shut down.
    Cancelled,
}

/// What the worker that reads the messages of a client does next.
#[derive(Clone, Copy, Debug, PartialEq, Eq, Structural)]
pub enum ListenerAction {
    /// Wait for the next event.
    Wait,
    /// Read a message of a length into a buffer of zeros.
    ReadBody(u64),
    /// Decode what is in the buffer.
    Decode,
    /// Pass the message on, then read the length of the next one.
    Forward,
    /// Drop the message, then read the length of the next one.
    Discard,
    /// End.
    Stop,
}

/// What the worker that reads the messages of a client does at an event. What is in the buffer is
/// decoded even where reading it failed.
pub open spec fn listener_next(
    state: ListenerState,
    event: ListenerEvent,
) -> (ListenerState, ListenerAction) {
    match (state, event) {
        (ListenerState::AwaitingLength, ListenerEvent::LengthRead(length)) => if length
            <= MESSAGE_LENGTH_LIMIT {
            (ListenerState::AwaitingBody(length), ListenerAction::ReadBody(length))
        } else {
            (ListenerState::Blocked, ListenerAction::Wait)
        },
        (ListenerState::AwaitingLength, ListenerEvent::LengthFailed) => (
            ListenerState::Blocked,
            ListenerAction::Wait,
        ),
        (ListenerState::AwaitingBody(_), ListenerEvent::BodyRead(_)) => (
            ListenerState::Decoding,
            ListenerAction::Decode,
        ),
        (ListenerState::Decoding, ListenerEvent::Decoded(true)) => (
            ListenerState::AwaitingLength,
            ListenerAction::Forward,
        ),
        (ListenerState::Decoding, ListenerEvent::Decoded(false)) => (
            ListenerState::AwaitingLength,
            ListenerAction::Discard,
        ),
        (ListenerState::AwaitingLength, ListenerEvent::Cancelled) => (
            ListenerState::Stopped,
            ListenerAction::Stop,
        ),
        (ListenerState::Blocked, ListenerEvent::Cancelled) => (
            ListenerState::Stopped,
            ListenerAction::Stop,
        ),
        _ => (state, ListenerAction::Wait),
    }
}

/// Takes an event of the worker that reads the messages of a client.
pub fn listener_step(
    state: ListenerState,
    event: ListenerEvent,
) -> (next: (ListenerState, ListenerAction))
    ensures
        next == listener_next(state, event),
{
    match (state, event) {
        (ListenerState::AwaitingLength, ListenerEvent::LengthRead(message_length)) => {
            match read_message_length(message_length) {
                Ok(length) => (
                    ListenerState::AwaitingBody(length),
                    ListenerAction::ReadBody(length),
                ),
                Err(_) => (ListenerState::Blocked, ListenerAction::Wait),
            }
        },
        (ListenerState::AwaitingLength, ListenerEvent::LengthFailed) => (
            ListenerState::Blocked,
            ListenerAction::Wait,
        ),
        (ListenerState::AwaitingBody(_), ListenerEvent::BodyRead(_)) => (
            ListenerState::Decoding,
            ListenerAction::Decode,
        ),
        (ListenerState::Decoding, ListenerEvent::Decoded(decoded)) => if decoded {
            (ListenerState::AwaitingLength, ListenerAction::Forward)
        } else {
            (ListenerState::AwaitingLength, ListenerAction::Discard)
        },
        (ListenerState::AwaitingLength, ListenerEvent::Cancelled) => (
            ListenerState::Stopped,
            ListenerAction::Stop,
        ),
        (ListenerState::Blocked, ListenerEvent::Cancelled) => (
            ListenerState::Stopped,
            ListenerAction::Stop,
        ),
        _ => (state, ListenerAction::Wait),
    }
}

/// Where the worker stands that takes the messages of a client.
#[derive(Clone, Copy, Debug, PartialEq, Eq, Structural)]
pub enum SenderState {
    /// It waits for a message, or to be cancelled.
    Waiting,
    /// It waits to be cancelled.
    Closing,
    /// It is done.
    Stopped,
}

/// What happens to the worker that takes the messages of a client.
#[derive(Clone, Copy, Debug, PartialEq, Eq, Structural)]
pub enum SenderEvent {
    /// A message was passed on.
    Message,
    /// No more messages will be passed on.
    ChannelClosed,
    /// The host is shut down.
    Cancelled,
}

/// Where the worker that takes the messages of a client stands after an event. It drops every
/// message.
pub open spec fn sender_next(state: SenderState, event: SenderEvent) -> SenderState {
    match (state, event) {
        (SenderState::Waiting, SenderEvent::ChannelClosed) => SenderState::Closing,
        (SenderState::Waiting, SenderEvent::Cancelled) => SenderState::Stopped,
        (SenderState::Closing, SenderEvent::Cancelled) => SenderState::Stopped,
        _ => state,
    }
}

/// Takes an event of the worker that takes the messages of a client.
pub fn sender_step(state: SenderState, event: SenderEvent) -> (next: SenderState)
    ensures
        next == sender_next(state, event),
{
    match (state, event) {
        (SenderState::Waiting, SenderEvent::ChannelClosed) => SenderState::Closing,
        (SenderState::Waiting, SenderEvent::Cancelled) => SenderState::Stopped,
        (SenderState::Closing, SenderEvent::Cancelled) => SenderState::Stopped,
        _ => state,
    }
}

/// The state of the worker that reads the messages of a client, after several events.
pub open spec fn listener_after(state: ListenerState, events: Seq<ListenerEvent>) -> ListenerState
    decreases events.len(),
{
    if events.len() == 0 {
        state
    } else {
        listener_next(listener_after(state, events.drop_last()), events.last()).0
    }
}

/// No message is read whose length exceeds the limit.
pub proof fn lemma_no_long_message_is_read(state: ListenerState, event: ListenerEvent)
    ensures
        listener_next(state, event).1 matches ListenerAction::ReadBody(length) ==> length
            <= MESSAGE_LENGTH_LIMIT && event == ListenerEvent::LengthRead(length),
{
}

/// After a length above the limit, nothing the client sends is read or passed on any more: the
/// worker does not act until the host is shut down, and ends then.
pub proof fn lemma_long_message_blocks_client(length: u64, events: Seq<ListenerEvent>, i: int)
    requires
        length > MESSAGE_LENGTH_LIMIT,
        0 <= i <= events.len(),
        forall|j: int| 0 <= j < i ==> #[trigger] events[j] != ListenerEvent::Cancelled,
    ensures
        ({
            let rejected = listener_next(
                ListenerState::AwaitingLength,
                ListenerEvent::LengthRead(length),
            );
            let state = listener_after(rejected.0, events.take(i));
            &&& rejected.1 == ListenerAction::Wait
            &&& state == ListenerState::Blocked
            &&& i < events.len() ==> listener_next(state, events[i]).1 == if events[i]
                == ListenerEvent::Cancelled {
                ListenerAction::Stop
            } else {
                ListenerAction::Wait
            }
        }),
    decreases i,
{
    if i > 0 {
        assert(events.take(i).drop_last() =~= events.take(i - 1));
        assert(events.take(i).last() == events[i - 1]);
        lemma_long_message_blocks_client(length, events, i - 1);
    }
}

/// A message within the limit is read and decoded, and passed on just where it could be decoded;
/// either way the worker then waits for the next one.
pub proof fn lemma_message_round(length: u64, read: bool, decoded: bool)
    requires
        length <= MESSAGE_LENGTH_LIMIT,
    ensures
        ({
            let first = listener_next(
                ListenerState::AwaitingLength,
                ListenerEvent::LengthRead(length),
            );
            let second = listener_next(first.0, ListenerEvent::BodyRead(read));
            let third = listener_next(second.0, ListenerEvent::Decoded(decoded));
            &&& first.1 == ListenerAction::ReadBody(length)
            &&& second.1 == ListenerAction::Decode
            &&& third.1 == if decoded {
                ListenerAction::Forward
            } else {
                ListenerAction::Discard
            }
            &&& third.0 == ListenerState::AwaitingLength
        }),
{
}

/// A worker that is done does nothing more.
pub proof fn lemma_stopped_workers_stay_stopped(
    accepted: AcceptorEvent,
    heard: ListenerEvent,
    sent: SenderEvent,
)
    ensures
        acceptor_next(AcceptorState::Stopped, accepted) == (
            AcceptorState::Stopped,
            AcceptorAction::Wait,
        ),
        listener_next(ListenerState::Stopped, heard) == (
            ListenerState::Stopped,
            ListenerAction::Wait,
        ),
        sender_next(SenderState::Stopped, sent) == SenderState::Stopped,
{
}

/// Once the host is shut down, each worker ends from every state in which it waits.
pub proof fn lemma_cancel_ends_waiting_workers(
    acceptor: AcceptorState,
    listener: ListenerState,
    sender: SenderState,
)
    ensures
        acceptor == AcceptorState::Listening || acceptor == AcceptorState::Closing ==> acceptor_next(
            acceptor,
            AcceptorEvent::Cancelled,
        ) == (AcceptorState::Stopped, AcceptorAction::Stop),
        listener == ListenerState::AwaitingLength || listener == ListenerState::Blocked
            ==> listener_next(listener, ListenerEvent::Cancelled) == (
            ListenerState::Stopped,
            ListenerAction::Stop,
        ),
        sender_next(sender, SenderEvent::Cancelled) == SenderState::Stopped,
{
}

/// A client is served only after it came in, was accepted and its handshake succeeded; where one of
/// the last two fails it is given up, and either way the worker then waits for the next client.
pub proof fn lemma_client_round(accepted: bool, connected: bool)
    ensures
        ({
            let first = acceptor_next(AcceptorState::Listening, AcceptorEvent::Incoming);
            let second = acceptor_next(first.0, AcceptorEvent::Accepted(accepted));
            let third = acceptor_next(second.0, AcceptorEvent::Connected(connected));
            &&& first.1 == AcceptorAction::Accept
            &&& !accepted ==> second == (AcceptorState::Listening, AcceptorAction::GiveUp)
            &&& accepted ==> second.1 == AcceptorAction::Handshake
            &&& accepted && !connected ==> third == (
                AcceptorState::Listening,
                AcceptorAction::GiveUp,
            )
            &&& accepted && connected ==> third == (
                AcceptorState::Listening,
                AcceptorAction::Serve,
            )
        }),
{
}

/// Where nothing more can come in, each worker waits to be cancelled: where no client will come,
/// where the length of a message cannot be read, and where no message will be passed on.
pub proof fn lemma_workers_without_input_wait_for_the_end()
    ensures
        acceptor_next(AcceptorState::Listening, AcceptorEvent::EndpointClosed) == (
            AcceptorState::Closing,
            AcceptorAction::Wait,
        ),
        listener_next(ListenerState::AwaitingLength, ListenerEvent::LengthFailed) == (
            ListenerState::Blocked,
            ListenerAction::Wait,
        ),
        sender_next(SenderState::Waiting, SenderEvent::ChannelClosed) == SenderState::Closing,
        sender_next(SenderState::Waiting, SenderEvent::Message) == SenderState::Waiting,
{
}

/// A worker acts only on what it waits for: on any other event it stays as it is and does nothing.
/// So a client is neither accepted nor served out of turn, no message is read, decoded or passed on
/// out of turn, and no worker ends while it is at work on a client or a message.
pub proof fn lemma_workers_act_in_turn(
    acceptor: AcceptorState,
    accepted: AcceptorEvent,
    listener: ListenerState,
    heard: ListenerEvent,
)
    ensures
        ({
            let (next, action) = acceptor_next(acceptor, accepted);
            &&& action is Accept ==> acceptor is Listening && accepted is Incoming
            &&& action is Handshake ==> acceptor is Accepting && accepted
                == AcceptorEvent::Accepted(true)
            &&& action is Serve ==> acceptor is Connecting && accepted == AcceptorEvent::Connected(
                true,
            )
            &&& action is GiveUp ==> accepted == AcceptorEvent::Accepted(false) || accepted
                == AcceptorEvent::Connected(false)
            &&& action is Stop <==> accepted is Cancelled && (acceptor is Listening
                || acceptor is Closing)
            &&& action is Stop <==> next is Stopped && !(acceptor is Stopped)
            &&& action is Wait ==> next == acceptor || (acceptor is Listening
                && accepted is EndpointClosed)
        }),
        ({
            let (next, action) = listener_next(listener, heard);
            &&& action is ReadBody ==> listener is AwaitingLength && heard is LengthRead
            &&& action is Decode <==> listener is AwaitingBody && heard is BodyRead
            &&& action is Forward <==> listener is Decoding && heard == ListenerEvent::Decoded(true)
            &&& action is Discard <==> listener is Decoding && heard == ListenerEvent::Decoded(false)
            &&& action is Stop <==> heard is Cancelled && (listener is AwaitingLength
                || listener is Blocked)
            &&& action is Stop <==> next is Stopped && !(listener is Stopped)
            &&& action is Wait ==> next == listener || (listener is AwaitingLength
                && next is Blocked)
        }),
{
}

/// The worker that takes the messages of a client ends just when it is cancelled; until then it waits,
/// for messages as long as any can be passed on.
pub proof fn lemma_sender_ends_when_it_is_cancelled(state: SenderState, event: SenderEvent)
    ensures
        sender_next(state, event) is Stopped <==> event is Cancelled || state is Stopped,
        sender_next(state, event) is Waiting <==> state is Waiting && event is Message,
        sender_next(state, event) is Closing <==> (state is Closing && !(event is Cancelled)) || (
        state is Waiting && event is ChannelClosed),
{
}

} // verus!
