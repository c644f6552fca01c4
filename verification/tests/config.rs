use richat::config::{
    check_cores, decode_x_token, num_from_str, parse_cpu_list, parse_decimal, parse_taskset, ConfigTokio,
    DecodeXTokenError, ShutdownState, TasksetError,
};

#[test]
fn decimal_numbers() {
    assert_eq!(parse_decimal(b"0"), Some(0));
    assert_eq!(parse_decimal(b"007"), Some(7));
    assert_eq!(parse_decimal(b"+5"), Some(5));
    assert_eq!(parse_decimal(b"+"), None);
    assert_eq!(parse_decimal(b""), None);
    assert_eq!(parse_decimal(b"1a"), None);
    assert_eq!(parse_decimal(b"-1"), None);
    assert_eq!(parse_decimal(usize::MAX.to_string().as_bytes()), Some(usize::MAX));
    let too_big = format!("{}0", usize::MAX);
    assert_eq!(parse_decimal(too_big.as_bytes()), None);
}

#[test]
fn cpu_list_intervals_and_singles() {
    assert_eq!(parse_cpu_list("0-3,8").unwrap(), vec![0, 1, 2, 3, 8]);
    assert_eq!(parse_cpu_list("3,1,1").unwrap(), vec![1, 3]);
    assert_eq!(parse_cpu_list("2-4,3-5").unwrap(), vec![2, 3, 4, 5]);
    assert_eq!(parse_cpu_list("7-7").unwrap(), vec![7]);
}

#[test]
fn cpu_list_reversed_interval() {
    match parse_cpu_list("0,3-1") {
        Err(TasksetError::InvalidInterval { interval }) => assert_eq!(interval, b"3-1".to_vec()),
        other => panic!("unexpected {:?}", other),
    }
}

#[test]
fn cpu_list_parse_failures() {
    match parse_cpu_list("a") {
        Err(TasksetError::ParseFailed { value }) => assert_eq!(value, b"a".to_vec()),
        other => panic!("unexpected {:?}", other),
    }
    match parse_cpu_list("1-x") {
        Err(TasksetError::ParseFailed { value }) => assert_eq!(value, b"x".to_vec()),
        other => panic!("unexpected {:?}", other),
    }
    match parse_cpu_list("1,,2") {
        Err(TasksetError::ParseFailed { value }) => assert_eq!(value, Vec::<u8>::new()),
        other => panic!("unexpected {:?}", other),
    }
    match parse_cpu_list("-3") {
        Err(TasksetError::ParseFailed { value }) => assert_eq!(value, Vec::<u8>::new()),
        other => panic!("unexpected {:?}", other),
    }
}

#[test]
fn cores_checked_against_available() {
    assert_eq!(check_cores(vec![0, 2], Some(vec![0, 1, 2, 3])).unwrap(), vec![0, 2]);
    match check_cores(vec![1, 5], Some(vec![3, 1])) {
        Err(TasksetError::OutOfRange { max_index }) => assert_eq!(max_index, 3),
        other => panic!("unexpected {:?}", other),
    }
    match check_cores(vec![1], Some(vec![])) {
        Err(TasksetError::OutOfRange { max_index }) => assert_eq!(max_index, 0),
        other => panic!("unexpected {:?}", other),
    }
    assert!(matches!(check_cores(vec![1], None), Err(TasksetError::AffinityUnavailable)));
    assert_eq!(check_cores(vec![], None).unwrap(), Vec::<usize>::new());
}

#[test]
fn taskset_reports_list_errors_before_affinity() {
    assert!(matches!(parse_taskset("5-2"), Err(TasksetError::InvalidInterval { .. })));
    assert!(matches!(parse_taskset("x"), Err(TasksetError::ParseFailed { .. })));
    match parse_taskset("0") {
        Ok(v) => assert_eq!(v, vec![0]),
        Err(e) => assert!(matches!(e, TasksetError::AffinityUnavailable)),
    }
}

#[test]
fn tokio_affinity_is_optional() {
    assert!(matches!(ConfigTokio::affinity_from_str(None), Ok(None)));
    assert!(matches!(ConfigTokio::affinity_from_str(Some("q")), Err(TasksetError::ParseFailed { .. })));
    let c = ConfigTokio::default();
    assert!(c.worker_threads.is_none() && c.affinity.is_none());
}

#[test]
fn numbers_with_underscores() {
    assert_eq!(num_from_str("1_000"), Some(1000));
    assert_eq!(num_from_str("1_000_000"), Some(1_000_000));
    assert_eq!(num_from_str("42"), Some(42));
    assert_eq!(num_from_str("_"), None);
    assert_eq!(num_from_str("1.5"), None);
}

#[test]
fn x_token_raw_bytes() {
    assert_eq!(decode_x_token("secret-token").unwrap(), b"secret-token".to_vec());
    assert_eq!(decode_x_token("base32:abc").unwrap(), b"base32:abc".to_vec());
}

#[test]
fn x_token_prefixed_text_is_decoded_whole() {
    // The prefix is part of the decoded text, and `:` belongs to neither
    // alphabet.
    assert_eq!(decode_x_token("base64:AAAA"), Err(DecodeXTokenError::Base64));
    assert_eq!(decode_x_token("base58:abc"), Err(DecodeXTokenError::Base58));
}

#[test]
fn shutdown_ids_reuse_the_smallest_free() {
    let mut s = ShutdownState::new();
    assert_eq!(s.get_next_id(), 1);
    assert_eq!(s.register(), 1);
    assert_eq!(s.register(), 2);
    assert_eq!(s.register(), 3);
    s.unregister(1);
    assert_eq!(s.get_next_id(), 1);
    assert_eq!(s.register(), 1);
    assert_eq!(s.get_next_id(), 4);
    s.unregister(0);
    assert_eq!(s.get_next_id(), 0);
    assert!(!s.is_set());
    s.shutdown();
    assert!(s.is_set());
}
