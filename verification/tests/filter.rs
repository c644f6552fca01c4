use richat::filter::{
    filter_data_from_text, parse_vec_pubkeys, AccountsFilterData, BlocksInclude, CommitmentLevelProto,
    ConfigFilter, ConfigFilterAccounts, ConfigFilterAccountsDataSlice, ConfigFilterAccountsFilter,
    ConfigFilterAccountsFilterLamports, ConfigFilterBlocks, ConfigFilterCommitment,
    ConfigFilterError, ConfigFilterSlots, ConfigFilterTransactions, ConfigLimits, ConfigLimitsAccounts,
    ConfigLimitsBlocks, ConfigLimitsBlocksMeta, ConfigLimitsEntries, ConfigLimitsError,
    ConfigLimitsSlots, ConfigLimitsTransactions, MemcmpData, Pubkey, PubkeyError, RequiredField,
    SubscribeRequestFilterAccounts, SubscribeRequestFilterAccountsFilter,
    SubscribeRequestFilterAccountsFilterLamports, SubscribeRequestFilterAccountsFilterMemcmp,
    SubscribeRequestFilterBlocks, SubscribeRequestFilterTransactions, MAX_FILTERS,
};

fn key(b: u8) -> Pubkey {
    Pubkey([b; 32])
}

fn accounts_filter(account: Vec<Pubkey>, owner: Vec<Pubkey>, filters: Vec<ConfigFilterAccountsFilter>) -> ConfigFilterAccounts {
    ConfigFilterAccounts { account, owner, filters, nonempty_txn_signature: None }
}

fn empty_filter() -> ConfigFilter {
    ConfigFilter {
        slots: vec![],
        accounts: vec![],
        accounts_data_slice: vec![],
        transactions: vec![],
        transactions_status: vec![],
        entries: vec![],
        blocks_meta: vec![],
        blocks: vec![],
        commitment: None,
    }
}

#[test]
fn slots_limits() {
    let limits = ConfigLimitsSlots { max: 1 };
    let one = vec![("a".to_string(), ConfigFilterSlots::default())];
    assert!(limits.check_filter(10, &one).is_ok());
    let two = vec![
        ("a".to_string(), ConfigFilterSlots::default()),
        ("b".to_string(), ConfigFilterSlots::default()),
    ];
    assert!(matches!(limits.check_filter(10, &two), Err(ConfigLimitsError::FiltersOverflow { max: 1 })));
    let long = vec![("abcdef".to_string(), ConfigFilterSlots::default())];
    assert!(matches!(limits.check_filter(5, &long), Err(ConfigLimitsError::FilterNameOverflow { max: 5 })));
}

#[test]
fn entries_and_blocks_meta_limits() {
    let e = ConfigLimitsEntries { max: 0 };
    assert!(matches!(e.check_filter(10, &vec!["x".to_string()]), Err(ConfigLimitsError::FiltersOverflow { max: 0 })));
    assert!(e.check_filter(10, &vec![]).is_ok());
    let b = ConfigLimitsBlocksMeta { max: 2 };
    assert!(b.check_filter(10, &vec!["x".to_string(), "y".to_string()]).is_ok());
    assert!(matches!(b.check_filter(0, &vec!["x".to_string()]), Err(ConfigLimitsError::FilterNameOverflow { max: 0 })));
}

#[test]
fn name_length_counts_bytes() {
    let e = ConfigLimitsEntries { max: 10 };
    assert!(e.check_filter(2, &vec!["é".to_string()]).is_ok());
    assert!(e.check_filter(1, &vec!["é".to_string()]).is_err());
}

#[test]
fn accounts_limits_errors() {
    let mut limits = ConfigLimitsAccounts::default();
    limits.any = false;
    let empty = vec![("f".to_string(), accounts_filter(vec![], vec![], vec![]))];
    assert!(matches!(limits.check_filter(10, &empty, &vec![]), Err(ConfigLimitsError::EmptyNotAllowed)));

    let mut limits = ConfigLimitsAccounts::default();
    limits.account_max = 1;
    let two = vec![("f".to_string(), accounts_filter(vec![key(1), key(2)], vec![], vec![]))];
    assert!(matches!(limits.check_filter(10, &two, &vec![]), Err(ConfigLimitsError::PubkeysOverflow { max: 1 })));

    let mut limits = ConfigLimitsAccounts::default();
    limits.owner_reject = vec![key(9)];
    let rejected = vec![("f".to_string(), accounts_filter(vec![], vec![key(3), key(9)], vec![]))];
    match limits.check_filter(10, &rejected, &vec![]) {
        Err(ConfigLimitsError::PubkeyNotAllowed { pubkey }) => assert_eq!(pubkey.0, [9u8; 32]),
        other => panic!("unexpected {other:?}"),
    }

    let limits = ConfigLimitsAccounts::default();
    let too_many = vec![("f".to_string(), accounts_filter(vec![key(1)], vec![], vec![ConfigFilterAccountsFilter::TokenAccountState; MAX_FILTERS + 1]))];
    assert!(matches!(limits.check_filter(10, &too_many, &vec![]), Err(ConfigLimitsError::TooMuchFilters { max: 4 })));

    let big = vec![("f".to_string(), accounts_filter(vec![], vec![], vec![ConfigFilterAccountsFilter::Memcmp { offset: 0, data: vec![0; 129] }]))];
    assert!(matches!(limits.check_filter(10, &big, &vec![]), Err(ConfigLimitsError::FilterDataOverflow)));

    let dup = vec![("f".to_string(), accounts_filter(vec![], vec![], vec![ConfigFilterAccountsFilter::DataSize(1), ConfigFilterAccountsFilter::DataSize(2)]))];
    assert!(matches!(limits.check_filter(10, &dup, &vec![]), Err(ConfigLimitsError::DatasizeDuplicated)));
}

#[test]
fn data_slices_order_and_overlap() {
    let limits = ConfigLimitsAccounts::default();
    let ds = |offset, length| ConfigFilterAccountsDataSlice { offset, length };
    assert!(limits.check_filter(10, &vec![], &vec![ds(0, 4), ds(4, 4)]).is_ok());
    assert!(matches!(limits.check_filter(10, &vec![], &vec![ds(8, 4), ds(0, 4)]), Err(ConfigLimitsError::DataSliceOutOfOrder)));
    assert!(matches!(limits.check_filter(10, &vec![], &vec![ds(0, 8), ds(4, 4)]), Err(ConfigLimitsError::DataSliceOverlap)));
    let mut small = ConfigLimitsAccounts::default();
    small.data_slice_max = 1;
    assert!(matches!(small.check_filter(10, &vec![], &vec![ds(0, 1), ds(1, 1)]), Err(ConfigLimitsError::FiltersOverflow { max: 1 })));
}

#[test]
fn transactions_limits() {
    let mut limits = ConfigLimitsTransactions::default();
    limits.any = false;
    let f = ConfigFilterTransactions {
        vote: None,
        failed: None,
        signature: None,
        account_include: vec![],
        account_exclude: vec![],
        account_required: vec![],
    };
    assert!(matches!(limits.check_filter(10, &vec![("t".to_string(), f.clone())]), Err(ConfigLimitsError::EmptyNotAllowed)));
    let mut g = f.clone();
    g.vote = Some(false);
    assert!(limits.check_filter(10, &vec![("t".to_string(), g)]).is_ok());
    let mut limits = ConfigLimitsTransactions::default();
    limits.account_include_reject = vec![key(5)];
    let mut h = f;
    h.account_include = vec![key(5)];
    assert!(matches!(limits.check_filter(10, &vec![("t".to_string(), h)]), Err(ConfigLimitsError::PubkeyNotAllowed { .. })));
}

#[test]
fn blocks_limits_entries_follow_entries_switch() {
    let mut limits = ConfigLimitsBlocks::default();
    limits.include_accounts = true;
    limits.include_entries = false;
    let f = ConfigFilterBlocks {
        account_include: vec![],
        include_transactions: None,
        include_accounts: None,
        include_entries: Some(true),
    };
    assert!(matches!(
        limits.check_filter(10, &vec![("b".to_string(), f.clone())]),
        Err(ConfigLimitsError::BlocksNotAllowed(BlocksInclude::Entries))
    ));
    let mut open = ConfigLimitsBlocks::default();
    open.include_accounts = false;
    open.include_entries = true;
    assert!(open.check_filter(10, &vec![("b".to_string(), f)]).is_ok());
    let mut limits = ConfigLimitsBlocks::default();
    limits.include_transactions = false;
    let g = ConfigFilterBlocks {
        account_include: vec![],
        include_transactions: None,
        include_accounts: None,
        include_entries: None,
    };
    assert!(matches!(
        limits.check_filter(10, &vec![("b".to_string(), g)]),
        Err(ConfigLimitsError::BlocksNotAllowed(BlocksInclude::Transactions))
    ));
}

#[test]
fn default_limits_accept_plain_filter() {
    let limits = ConfigLimits::default();
    let mut f = empty_filter();
    f.slots = vec![("s".to_string(), ConfigFilterSlots::default())];
    f.accounts = vec![("a".to_string(), accounts_filter(vec![key(1)], vec![], vec![ConfigFilterAccountsFilter::DataSize(165)]))];
    assert!(limits.check_filter(&f).is_ok());
    let mut g = empty_filter();
    g.entries = vec!["x".repeat(129)];
    assert!(matches!(limits.check_filter(&g), Err(ConfigLimitsError::FilterNameOverflow { max: 128 })));
}

#[test]
fn commitment_numbers() {
    assert!(matches!(ConfigFilterCommitment::try_from_i32(0), Ok(ConfigFilterCommitment::Processed)));
    assert!(matches!(ConfigFilterCommitment::try_from_i32(1), Ok(ConfigFilterCommitment::Confirmed)));
    assert!(matches!(ConfigFilterCommitment::try_from_i32(2), Ok(ConfigFilterCommitment::Finalized)));
    assert!(matches!(ConfigFilterCommitment::try_from_i32(6), Err(ConfigFilterError::InvalidCommitment(CommitmentLevelProto::Dead))));
    assert!(matches!(ConfigFilterCommitment::try_from_i32(7), Err(ConfigFilterError::UnknownCommitment(7))));
    assert!(matches!(ConfigFilterCommitment::try_from_i32(-1), Err(ConfigFilterError::UnknownCommitment(-1))));
    for c in [ConfigFilterCommitment::Processed, ConfigFilterCommitment::Confirmed, ConfigFilterCommitment::Finalized] {
        assert_eq!(ConfigFilterCommitment::try_from_i32(c.to_i32()).ok(), Some(c));
    }
    assert_eq!(ConfigFilterCommitment::default(), ConfigFilterCommitment::Processed);
}

fn memcmp(data: MemcmpData) -> SubscribeRequestFilterAccountsFilter {
    SubscribeRequestFilterAccountsFilter {
        filter: Some(AccountsFilterData::Memcmp(SubscribeRequestFilterAccountsFilterMemcmp { offset: 4, data: Some(data) })),
    }
}

#[test]
fn accounts_filter_conversion() {
    match ConfigFilterAccountsFilter::try_from_request(&memcmp(MemcmpData::Base58("3yZe7d".to_string()))) {
        Ok(ConfigFilterAccountsFilter::Memcmp { offset, data }) => {
            assert_eq!(offset, 4);
            assert_eq!(data, bs58::decode("3yZe7d").into_vec().unwrap());
        }
        other => panic!("unexpected {other:?}"),
    }
    match ConfigFilterAccountsFilter::try_from_request(&memcmp(MemcmpData::Base64("AQID".to_string()))) {
        Ok(ConfigFilterAccountsFilter::Memcmp { data, .. }) => assert_eq!(data, vec![1, 2, 3]),
        other => panic!("unexpected {other:?}"),
    }
    assert!(matches!(
        ConfigFilterAccountsFilter::try_from_request(&memcmp(MemcmpData::Base58("0OIl".to_string()))),
        Err(ConfigFilterError::InvalidBase58)
    ));
    assert!(matches!(
        ConfigFilterAccountsFilter::try_from_request(&memcmp(MemcmpData::Base64("!!".to_string()))),
        Err(ConfigFilterError::InvalidBase64)
    ));
    assert!(matches!(
        ConfigFilterAccountsFilter::try_from_request(&memcmp(MemcmpData::Base58("1".repeat(176)))),
        Err(ConfigFilterError::Limits(ConfigLimitsError::FilterDataOverflow))
    ));
    assert!(matches!(
        ConfigFilterAccountsFilter::try_from_request(&memcmp(MemcmpData::Bytes(vec![0; 129]))),
        Err(ConfigFilterError::Limits(ConfigLimitsError::FilterDataOverflow))
    ));
    let none = SubscribeRequestFilterAccountsFilter { filter: None };
    assert!(matches!(
        ConfigFilterAccountsFilter::try_from_request(&none),
        Err(ConfigFilterError::FieldNotDefined(RequiredField::Filter))
    ));
    let state = SubscribeRequestFilterAccountsFilter { filter: Some(AccountsFilterData::TokenAccountState(false)) };
    assert!(matches!(ConfigFilterAccountsFilter::try_from_request(&state), Err(ConfigFilterError::TokenAccountStateInvalid)));
    let lamports = SubscribeRequestFilterAccountsFilter {
        filter: Some(AccountsFilterData::Lamports(SubscribeRequestFilterAccountsFilterLamports { cmp: None })),
    };
    assert!(matches!(
        ConfigFilterAccountsFilter::try_from_request(&lamports),
        Err(ConfigFilterError::FieldNotDefined(RequiredField::Cmp))
    ));
    let lamports = SubscribeRequestFilterAccountsFilter {
        filter: Some(AccountsFilterData::Lamports(SubscribeRequestFilterAccountsFilterLamports {
            cmp: Some(ConfigFilterAccountsFilterLamports::Gt(5)),
        })),
    };
    assert!(matches!(
        ConfigFilterAccountsFilter::try_from_request(&lamports),
        Ok(ConfigFilterAccountsFilter::Lamports(ConfigFilterAccountsFilterLamports::Gt(5)))
    ));
}

const SYSTEM: &str = "11111111111111111111111111111111";

#[test]
fn pubkeys_parse_or_fail_first() {
    let keys = parse_vec_pubkeys(&vec![SYSTEM.to_string()]).unwrap();
    assert_eq!(keys[0].0, [0u8; 32]);
    match parse_vec_pubkeys(&vec![SYSTEM.to_string(), "bad!".to_string(), "x".repeat(50)]) {
        Err(ConfigFilterError::Pubkey(s, e)) => {
            assert_eq!(s, "bad!");
            assert_eq!(e, PubkeyError::Invalid);
        }
        other => panic!("unexpected {other:?}"),
    }
    match parse_vec_pubkeys(&vec!["2".repeat(45)]) {
        Err(ConfigFilterError::Pubkey(_, e)) => assert_eq!(e, PubkeyError::WrongSize),
        other => panic!("unexpected {other:?}"),
    }
}

#[test]
fn accounts_request_conversion() {
    let req = SubscribeRequestFilterAccounts {
        account: vec![SYSTEM.to_string()],
        owner: vec![],
        filters: vec![SubscribeRequestFilterAccountsFilter { filter: Some(AccountsFilterData::Datasize(165)) }],
        nonempty_txn_signature: Some(true),
    };
    let f = ConfigFilterAccounts::try_from_request(&req).unwrap();
    assert_eq!(f.account.len(), 1);
    assert!(matches!(f.filters[0], ConfigFilterAccountsFilter::DataSize(165)));
    assert_eq!(f.nonempty_txn_signature, Some(true));
    let many = SubscribeRequestFilterAccounts {
        account: vec![],
        owner: vec![],
        filters: vec![SubscribeRequestFilterAccountsFilter { filter: Some(AccountsFilterData::Datasize(1)) }; 5],
        nonempty_txn_signature: None,
    };
    assert!(matches!(
        ConfigFilterAccounts::try_from_request(&many),
        Err(ConfigFilterError::Limits(ConfigLimitsError::TooMuchFilters { max: 4 }))
    ));
}

#[test]
fn transactions_and_blocks_request_conversion() {
    let req = SubscribeRequestFilterTransactions {
        vote: Some(false),
        failed: None,
        signature: Some("bad".to_string()),
        account_include: vec![],
        account_exclude: vec![],
        account_required: vec![],
    };
    assert!(matches!(ConfigFilterTransactions::try_from_request(&req), Err(ConfigFilterError::Signature(..))));
    let blocks = SubscribeRequestFilterBlocks {
        account_include: vec![SYSTEM.to_string()],
        include_transactions: Some(true),
        include_accounts: None,
        include_entries: Some(false),
    };
    let b = ConfigFilterBlocks::try_from_request(&blocks).unwrap();
    assert_eq!(b.account_include[0].0, [0u8; 32]);
    assert_eq!(b.include_entries, Some(false));
}

#[test]
fn text_data_is_taken_as_bytes() {
    assert_eq!(filter_data_from_text("base58:abc"), b"base58:abc".to_vec());
    assert_eq!(filter_data_from_text("plain text"), b"plain text".to_vec());
}
