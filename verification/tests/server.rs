use file_sharing::server::{
    acceptor_step, configure_server, listen_address, listener_step, read_message_length,
    sender_step, server_settings, AcceptorAction, AcceptorEvent, AcceptorState, ConfigError,
    LengthError, ListenAddress, ListenerAction, ListenerEvent, ListenerState, SenderEvent,
    SenderState, MESSAGE_LENGTH_LIMIT,
};

#[test]
fn length_is_limited() {
    assert_eq!(MESSAGE_LENGTH_LIMIT, 128_000_000);
    assert_eq!(read_message_length(0), Ok(0));
    assert_eq!(read_message_length(128_000_000), Ok(128_000_000));
    assert_eq!(read_message_length(128_000_001), Err(LengthError::TooLong));
    assert_eq!(read_message_length(u64::MAX), Err(LengthError::TooLong));
    assert_eq!(
        LengthError::TooLong.text(),
        "Message length is too long, rejecting request."
    );
}

#[test]
fn host_is_set_up_with_a_certificate_of_its_own() {
    let settings = configure_server().unwrap();
    assert_eq!(settings.certificate_names, vec!["localhost".to_string()]);
    assert_eq!(settings.max_concurrent_uni_streams, 0);
    assert_eq!(settings.max_idle_timeout_secs, 7_200);
    let names = b"\x30\x0b\x82\x09localhost";
    assert!(settings.certificate.windows(names.len()).any(|part| part == names));
    assert_eq!(settings.private_key.len(), 138);
    let public_half = &settings.private_key[73..];
    assert_eq!(public_half.len(), 65);
    assert!(settings.certificate.windows(65).any(|part| part == public_half));
    let again = configure_server().unwrap();
    assert_ne!(again.private_key, settings.private_key);
    assert!(!again.certificate.windows(65).any(|part| part == public_half));
}

#[test]
fn settings_carry_the_certificate() {
    let settings = server_settings(Some((vec![1, 2], vec![3]))).unwrap();
    assert_eq!(settings.certificate, vec![1, 2]);
    assert_eq!(settings.private_key, vec![3]);
    assert_eq!(settings.certificate_names, vec!["localhost".to_string()]);
}

#[test]
fn host_needs_a_certificate() {
    assert_eq!(server_settings(None).err(), Some(ConfigError::NoCertificate));
}

#[test]
fn address_is_local_or_open() {
    assert_eq!(
        listen_address(8080, true),
        ListenAddress { groups: [0, 0, 0, 0, 0, 0, 0, 1], port: 8080 }
    );
    assert_eq!(listen_address(1, false), ListenAddress { groups: [0; 8], port: 1 });
}

#[test]
fn client_is_served_after_its_handshake() {
    let (state, action) = acceptor_step(AcceptorState::Listening, AcceptorEvent::Incoming);
    assert_eq!(action, AcceptorAction::Accept);
    let (state, action) = acceptor_step(state, AcceptorEvent::Accepted(true));
    assert_eq!(action, AcceptorAction::Handshake);
    let (state, action) = acceptor_step(state, AcceptorEvent::Connected(true));
    assert_eq!((state, action), (AcceptorState::Listening, AcceptorAction::Serve));
}

#[test]
fn client_that_fails_is_given_up() {
    let given_up = (AcceptorState::Listening, AcceptorAction::GiveUp);
    assert_eq!(
        acceptor_step(AcceptorState::Accepting, AcceptorEvent::Accepted(false)),
        given_up
    );
    assert_eq!(
        acceptor_step(AcceptorState::Connecting, AcceptorEvent::Connected(false)),
        given_up
    );
}

#[test]
fn acceptor_ends_when_it_is_cancelled() {
    let stopped = (AcceptorState::Stopped, AcceptorAction::Stop);
    assert_eq!(acceptor_step(AcceptorState::Listening, AcceptorEvent::Cancelled), stopped);
    let (state, action) = acceptor_step(AcceptorState::Listening, AcceptorEvent::EndpointClosed);
    assert_eq!((state, action), (AcceptorState::Closing, AcceptorAction::Wait));
    assert_eq!(acceptor_step(state, AcceptorEvent::Cancelled), stopped);
    assert_eq!(
        acceptor_step(AcceptorState::Stopped, AcceptorEvent::Incoming),
        (AcceptorState::Stopped, AcceptorAction::Wait)
    );
    assert_eq!(
        acceptor_step(AcceptorState::Connecting, AcceptorEvent::Cancelled),
        (AcceptorState::Connecting, AcceptorAction::Wait)
    );
}

#[test]
fn message_is_read_decoded_and_forwarded() {
    for read in [true, false] {
        for decoded in [true, false] {
            let (state, action) =
                listener_step(ListenerState::AwaitingLength, ListenerEvent::LengthRead(77));
            assert_eq!(action, ListenerAction::ReadBody(77));
            let (state, action) = listener_step(state, ListenerEvent::BodyRead(read));
            assert_eq!(action, ListenerAction::Decode);
            let (state, action) = listener_step(state, ListenerEvent::Decoded(decoded));
            assert_eq!(state, ListenerState::AwaitingLength);
            assert_eq!(
                action,
                if decoded { ListenerAction::Forward } else { ListenerAction::Discard }
            );
        }
    }
}

#[test]
fn long_message_blocks_its_client() {
    let (mut state, action) = listener_step(
        ListenerState::AwaitingLength,
        ListenerEvent::LengthRead(MESSAGE_LENGTH_LIMIT + 1),
    );
    assert_eq!((state, action), (ListenerState::Blocked, ListenerAction::Wait));
    for event in [
        ListenerEvent::LengthRead(1),
        ListenerEvent::BodyRead(true),
        ListenerEvent::Decoded(true),
        ListenerEvent::LengthFailed,
    ] {
        let (next, action) = listener_step(state, event);
        assert_eq!((next, action), (ListenerState::Blocked, ListenerAction::Wait));
        state = next;
    }
    assert_eq!(
        listener_step(state, ListenerEvent::Cancelled),
        (ListenerState::Stopped, ListenerAction::Stop)
    );
}

#[test]
fn longest_message_is_read() {
    assert_eq!(
        listener_step(
            ListenerState::AwaitingLength,
            ListenerEvent::LengthRead(MESSAGE_LENGTH_LIMIT)
        )
        .1,
        ListenerAction::ReadBody(MESSAGE_LENGTH_LIMIT)
    );
}

#[test]
fn listener_without_a_stream_waits_for_the_end() {
    let (state, action) =
        listener_step(ListenerState::AwaitingLength, ListenerEvent::LengthFailed);
    assert_eq!((state, action), (ListenerState::Blocked, ListenerAction::Wait));
    assert_eq!(
        listener_step(ListenerState::AwaitingLength, ListenerEvent::Cancelled),
        (ListenerState::Stopped, ListenerAction::Stop)
    );
    assert_eq!(
        listener_step(ListenerState::Stopped, ListenerEvent::LengthRead(1)),
        (ListenerState::Stopped, ListenerAction::Wait)
    );
}

#[test]
fn sender_drops_messages_until_it_is_cancelled() {
    assert_eq!(
        sender_step(SenderState::Waiting, SenderEvent::Message),
        SenderState::Waiting
    );
    let closing = sender_step(SenderState::Waiting, SenderEvent::ChannelClosed);
    assert_eq!(closing, SenderState::Closing);
    assert_eq!(sender_step(closing, SenderEvent::Message), SenderState::Closing);
    assert_eq!(sender_step(closing, SenderEvent::Cancelled), SenderState::Stopped);
    assert_eq!(
        sender_step(SenderState::Waiting, SenderEvent::Cancelled),
        SenderState::Stopped
    );
    assert_eq!(
        sender_step(SenderState::Stopped, SenderEvent::Message),
        SenderState::Stopped
    );
}

#[test]
fn cancel_ends_workers_that_wait() {
    for state in [AcceptorState::Listening, AcceptorState::Closing] {
        assert_eq!(
            acceptor_step(state, AcceptorEvent::Cancelled),
            (AcceptorState::Stopped, AcceptorAction::Stop)
        );
    }
    for state in [ListenerState::AwaitingLength, ListenerState::Blocked] {
        assert_eq!(
            listener_step(state, ListenerEvent::Cancelled),
            (ListenerState::Stopped, ListenerAction::Stop)
        );
    }
    for state in [SenderState::Waiting, SenderState::Closing] {
        assert_eq!(sender_step(state, SenderEvent::Cancelled), SenderState::Stopped);
    }
}
