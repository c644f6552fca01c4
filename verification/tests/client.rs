use richat::client::{deliver_in_order, parse_frame_header, ConfigTcpClient, FrameHeader, QuicClientBuilder, QuicConnectError, ReorderBuffer, TcpClientBuilder};

#[test]
fn builder_sets_each_option() {
    let b = TcpClientBuilder::new()
        .set_keepalive(Some(true))
        .set_nodelay(Some(false))
        .set_recv_buffer_size(Some(4096))
        .set_x_token(Some(b"tok".to_vec()));
    assert_eq!(b.keepalive, Some(true));
    assert_eq!(b.nodelay, Some(false));
    assert_eq!(b.recv_buffer_size, Some(4096));
    assert_eq!(b.x_token, Some(b"tok".to_vec()));
    let d = TcpClientBuilder::default();
    assert!(d.keepalive.is_none() && d.nodelay.is_none() && d.recv_buffer_size.is_none() && d.x_token.is_none());
}

#[test]
fn default_client_config() {
    let c = ConfigTcpClient::default_config();
    assert_eq!(c.endpoint, "127.0.0.1:10101");
    let mut c = c;
    c.nodelay = Some(true);
    let (b, endpoint) = c.into_builder();
    assert_eq!(endpoint, "127.0.0.1:10101");
    assert_eq!(b.nodelay, Some(true));
    assert!(b.keepalive.is_none());
}

#[test]
fn frame_headers() {
    assert_eq!(parse_frame_header(0), FrameHeader::Message { len: 0 });
    assert_eq!(parse_frame_header(17), FrameHeader::Message { len: 17 });
    assert_eq!(parse_frame_header(u64::MAX), FrameHeader::Error);
}

#[test]
fn reorder_hands_out_in_number_order() {
    let mut r = ReorderBuffer::new();
    assert_eq!(r.pop_ready(), None);
    assert_eq!(r.on_message(2, vec![2]), None);
    assert_eq!(r.on_message(1, vec![1]), None);
    assert_eq!(r.on_message(0, vec![0]), Some(vec![0]));
    assert_eq!(r.pop_ready(), Some(vec![1]));
    assert_eq!(r.pop_ready(), Some(vec![2]));
    assert_eq!(r.pop_ready(), None);
    assert_eq!(r.on_message(3, vec![3]), Some(vec![3]));
}

#[test]
fn arrival_hands_out_the_whole_ready_run() {
    let mut r = ReorderBuffer::new();
    assert_eq!(r.on_arrival(2, vec![2]), Vec::<Vec<u8>>::new());
    assert_eq!(r.on_arrival(1, vec![1]), Vec::<Vec<u8>>::new());
    assert_eq!(r.pending_count(), 2);
    assert_eq!(r.on_arrival(0, vec![0]), vec![vec![0], vec![1], vec![2]]);
    assert_eq!(r.next_msg_id(), 3);
    assert_eq!(r.pending_count(), 0);
}

#[test]
fn interleaved_streams_are_delivered_in_number_order() {
    let arrivals = vec![(3, vec![3]), (1, vec![1]), (0, vec![0]), (4, vec![4]), (2, vec![2])];
    assert_eq!(deliver_in_order(arrivals), vec![vec![0], vec![1], vec![2], vec![3], vec![4]]);
    let gap = vec![(1, vec![1]), (0, vec![0]), (3, vec![3])];
    assert_eq!(deliver_in_order(gap), vec![vec![0], vec![1]]);
}

#[test]
fn quic_windows_follow_bandwidth_and_rtt() {
    let w = richat::client::quic_windows(12_500_000, 100);
    assert_eq!(w.stream_receive_window, 1_250_000);
    assert_eq!(w.send_window, 10_000_000);
    assert_eq!(w.datagram_receive_buffer_size, 1_250_000);
    assert_eq!(richat::client::quic_idle_timeout_ms(None), Ok(None));
    assert_eq!(richat::client::quic_idle_timeout_ms(Some(30_000)), Ok(Some(30_000)));
    assert_eq!(richat::client::quic_idle_timeout_ms(Some(1u128 << 40)), Err(1u128 << 40));
}

#[test]
fn quic_builder_needs_a_server_name() {
    let b = QuicClientBuilder::new();
    assert_eq!(b.local_addr, "[::]:0");
    assert!(matches!(b.clone().connect_settings(), Err(QuicConnectError::ServerName)));
    let named = b.set_server_name(Some("localhost".to_string()));
    let long = named.clone().set_max_idle_timeout(Some(1u128 << 40));
    assert!(matches!(long.connect_settings(), Err(QuicConnectError::InvalidMaxIdleTimeout(_))));
    let s = named.set_recv_streams(4).connect_settings().unwrap();
    assert_eq!(s.server_name, "localhost");
    assert_eq!(s.windows.stream_receive_window, 1_250_000);
    assert_eq!((s.max_concurrent_bidi_streams, s.max_concurrent_uni_streams), (0, 4));
    assert_eq!(s.max_idle_timeout_ms, Some(30_000));
}
