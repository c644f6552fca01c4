use richat::channel::Sender;
use richat::encoding::{ProtobufMessage, ReplicaEntryInfo, Timestamp};
use richat::plugin::{ConfigChannel, ProtobufEncoder};
use richat::transport::{
    check_request_size, quic_frame, tcp_close_frame, tcp_frame, verify_x_token, QuicSendState, QuicServer,
    QuicSubscribeRequest, SubscribeRequest, SubscribeResponse, SubscribeResponseError, TcpServer,
};

fn sender() -> Sender {
    Sender::new(ConfigChannel { encoder: ProtobufEncoder::Raw, max_messages: 16, max_slots: 10, max_bytes: 1 << 20 })
}

fn entry(slot: u64) -> ProtobufMessage {
    ProtobufMessage::Entry {
        entry: ReplicaEntryInfo {
            slot,
            index: 0,
            num_hashes: 1,
            hash: vec![7],
            executed_transaction_count: 0,
            starting_transaction_index: 0,
        },
    }
}

fn error(e: SubscribeResponseError) -> SubscribeResponse {
    SubscribeResponse { error: Some(e), max_recv_streams: None, first_available_slot: None }
}

fn ok() -> SubscribeResponse {
    SubscribeResponse { error: None, max_recv_streams: None, first_available_slot: None }
}

#[test]
fn request_size_limit() {
    assert_eq!(check_request_size(10, 10), None);
    assert_eq!(check_request_size(11, 10), Some(error(SubscribeResponseError::RequestSizeTooLarge)));
}

#[test]
fn access_tokens() {
    let none: Vec<Vec<u8>> = vec![];
    assert_eq!(verify_x_token(&none, &None), None);
    assert_eq!(verify_x_token(&none, &Some(b"x".to_vec())), None);
    let tokens = vec![b"alpha".to_vec(), b"beta".to_vec()];
    assert_eq!(verify_x_token(&tokens, &None), Some(SubscribeResponseError::XTokenRequired));
    assert_eq!(verify_x_token(&tokens, &Some(b"beta".to_vec())), None);
    assert_eq!(verify_x_token(&tokens, &Some(b"bet".to_vec())), Some(SubscribeResponseError::XTokenInvalid));
}

#[test]
fn tcp_requests() {
    let mut s = sender();
    let tokens = vec![b"t".to_vec()];
    let req = |tok: Option<&[u8]>, replay: Option<u64>| SubscribeRequest {
        x_token: tok.map(|t| t.to_vec()),
        replay_from_slot: replay,
        filter: None,
    };
    let (r, rx) = TcpServer::handle_request(&s, &tokens, req(None, None));
    assert_eq!(r, error(SubscribeResponseError::XTokenRequired));
    assert!(rx.is_none());
    let (r, rx) = TcpServer::handle_request(&s, &tokens, req(Some(b"t"), Some(3)));
    assert_eq!(r, error(SubscribeResponseError::NotInitialized));
    assert!(rx.is_none());
    s.push_with_timestamp(&entry(5), ProtobufEncoder::Raw, Timestamp { seconds: 0, nanos: 0 }).unwrap();
    let (r, rx) = TcpServer::handle_request(&s, &tokens, req(Some(b"t"), Some(3)));
    assert_eq!(
        r,
        SubscribeResponse {
            error: Some(SubscribeResponseError::SlotNotAvailable),
            max_recv_streams: None,
            first_available_slot: Some(5),
        }
    );
    assert!(rx.is_none());
    let (r, rx) = TcpServer::handle_request(&s, &tokens, req(Some(b"t"), None));
    assert_eq!(r, ok());
    assert!(rx.is_some());
}

#[test]
fn quic_requests() {
    let s = sender();
    let tokens: Vec<Vec<u8>> = vec![];
    let req = |recv_streams: u32, max_backlog: Option<u32>| QuicSubscribeRequest {
        x_token: None,
        recv_streams,
        max_backlog,
        replay_from_slot: None,
        filter: None,
    };
    let (r, sub) = QuicServer::handle_request(&s, &tokens, 4, req(0, None));
    assert_eq!(
        r,
        SubscribeResponse {
            error: Some(SubscribeResponseError::ZeroRecvStreams),
            max_recv_streams: Some(4),
            first_available_slot: None,
        }
    );
    assert!(sub.is_none());
    let (r, sub) = QuicServer::handle_request(&s, &tokens, 4, req(5, None));
    assert_eq!(r.error, Some(SubscribeResponseError::ExceedRecvStreams));
    assert!(sub.is_none());
    let (r, sub) = QuicServer::handle_request(&s, &tokens, 4, req(4, None));
    assert_eq!(r, ok());
    let sub = sub.unwrap();
    assert_eq!((sub.recv_streams, sub.max_backlog), (4, u64::MAX));
    let (_, sub) = QuicServer::handle_request(&s, &tokens, 4, req(2, Some(10)));
    assert_eq!(sub.unwrap().max_backlog, 10);
}

#[test]
fn frames() {
    assert_eq!(tcp_frame(b"ab"), vec![0, 0, 0, 0, 0, 0, 0, 2, b'a', b'b']);
    assert_eq!(tcp_frame(b""), vec![0; 8]);
    assert_eq!(
        tcp_close_frame(b"e"),
        vec![255, 255, 255, 255, 255, 255, 255, 255, 0, 0, 0, 0, 0, 0, 0, 1, b'e']
    );
    assert_eq!(
        quic_frame(0x0102, b"z"),
        vec![0, 0, 0, 0, 0, 0, 1, 2, 0, 0, 0, 0, 0, 0, 0, 1, b'z']
    );
}

#[test]
fn quic_send_backlog() {
    let mut q = QuicSendState::new(2, 3);
    assert!(q.can_send());
    assert_eq!(q.start_send(), 0);
    assert_eq!(q.start_send(), 1);
    // No stream free.
    assert!(!q.can_send());
    q.finish_send(1);
    assert!(q.can_send());
    assert_eq!(q.start_send(), 2);
    q.finish_send(2);
    // Message 0 is still in flight and three are ahead of it.
    assert!(!q.can_send());
    q.finish_send(0);
    assert!(q.can_send());
    assert_eq!(q.start_send(), 3);
}
