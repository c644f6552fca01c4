use richat::filter::{
    AccountsFilterData, CommitmentLevelProto, ConfigFilter, ConfigFilterAccounts, ConfigFilterAccountsDataSlice,
    ConfigFilterAccountsFilter, ConfigFilterAccountsFilterLamports, ConfigFilterBlocks, ConfigFilterCommitment,
    ConfigFilterError, ConfigFilterSlots, ConfigFilterTransactions, MemcmpData, Pubkey, PubkeyError, Signature,
    SubscribeRequestFilterAccounts, SubscribeRequestFilterTransactions,
};
use richat::request::{SubscribeRequest, SubscribeRequestAccountsDataSlice, SubscribeRequestFilterSlots};

fn sample() -> ConfigFilter {
    ConfigFilter {
        slots: vec![("s".to_string(), ConfigFilterSlots { filter_by_commitment: Some(true) })],
        accounts: vec![(
            "a".to_string(),
            ConfigFilterAccounts {
                account: vec![Pubkey([1; 32]), Pubkey([0; 32])],
                owner: vec![Pubkey([7; 32])],
                filters: vec![
                    ConfigFilterAccountsFilter::Memcmp { offset: 4, data: vec![1, 2, 3] },
                    ConfigFilterAccountsFilter::DataSize(165),
                    ConfigFilterAccountsFilter::TokenAccountState,
                    ConfigFilterAccountsFilter::Lamports(ConfigFilterAccountsFilterLamports::Gt(10)),
                ],
                nonempty_txn_signature: Some(false),
            },
        )],
        accounts_data_slice: vec![ConfigFilterAccountsDataSlice { offset: 1, length: 2 }],
        transactions: vec![(
            "t".to_string(),
            ConfigFilterTransactions {
                vote: Some(false),
                failed: None,
                signature: Some(Signature([3; 64])),
                account_include: vec![Pubkey([9; 32])],
                account_exclude: vec![],
                account_required: vec![Pubkey([2; 32])],
            },
        )],
        transactions_status: vec![],
        entries: vec!["e".to_string()],
        blocks_meta: vec!["m".to_string()],
        blocks: vec![(
            "b".to_string(),
            ConfigFilterBlocks {
                account_include: vec![Pubkey([5; 32])],
                include_transactions: Some(true),
                include_accounts: None,
                include_entries: Some(false),
            },
        )],
        commitment: Some(ConfigFilterCommitment::Confirmed),
    }
}

fn empty_request() -> SubscribeRequest {
    SubscribeRequest {
        slots: vec![],
        accounts: vec![],
        transactions: vec![],
        transactions_status: vec![],
        entry: vec![],
        blocks: vec![],
        blocks_meta: vec![],
        commitment: None,
        accounts_data_slice: vec![],
        from_slot: None,
        ping: None,
    }
}

fn keys(ks: &[Pubkey]) -> Vec<[u8; 32]> {
    ks.iter().map(|k| k.0).collect()
}

#[test]
fn keys_are_written_in_base58() {
    let x = sample().to_request();
    let a = &x.accounts[0].1;
    assert_eq!(a.account[1], "11111111111111111111111111111111");
    assert_eq!(x.commitment, Some(1));
    assert_eq!(x.transactions[0].1.signature.as_ref().unwrap().len() > 80, true);
    match &a.filters[0].filter {
        Some(AccountsFilterData::Memcmp(m)) => {
            assert_eq!(m.offset, 4);
            assert!(matches!(&m.data, Some(MemcmpData::Bytes(b)) if b == &vec![1, 2, 3]));
        }
        other => panic!("unexpected {:?}", other),
    }
    assert!(matches!(a.filters[2].filter, Some(AccountsFilterData::TokenAccountState(true))));
}

#[test]
fn filters_round_trip_through_a_request() {
    let c = sample();
    let d = ConfigFilter::try_from_request(&c.to_request()).unwrap();
    assert_eq!(d.slots[0].0, "s");
    assert_eq!(d.slots[0].1, c.slots[0].1);
    let (ca, da) = (&c.accounts[0].1, &d.accounts[0].1);
    assert_eq!(keys(&da.account), keys(&ca.account));
    assert_eq!(keys(&da.owner), keys(&ca.owner));
    assert_eq!(format!("{:?}", da.filters), format!("{:?}", ca.filters));
    assert_eq!(da.nonempty_txn_signature, ca.nonempty_txn_signature);
    assert_eq!(d.accounts_data_slice, c.accounts_data_slice);
    let (ct, dt) = (&c.transactions[0].1, &d.transactions[0].1);
    assert_eq!(dt.signature.unwrap().0.to_vec(), ct.signature.unwrap().0.to_vec());
    assert_eq!(keys(&dt.account_include), keys(&ct.account_include));
    assert_eq!(keys(&dt.account_required), keys(&ct.account_required));
    assert_eq!((dt.vote, dt.failed), (ct.vote, ct.failed));
    assert_eq!(d.entries, c.entries);
    assert_eq!(d.blocks_meta, c.blocks_meta);
    assert_eq!(keys(&d.blocks[0].1.account_include), keys(&c.blocks[0].1.account_include));
    assert_eq!(d.commitment, Some(ConfigFilterCommitment::Confirmed));
}

#[test]
fn first_failing_accounts_filter_decides() {
    let mut x = empty_request();
    let good = SubscribeRequestFilterAccounts { account: vec![], owner: vec![], filters: vec![], nonempty_txn_signature: None };
    let bad = |t: &str| SubscribeRequestFilterAccounts {
        account: vec![t.to_string()],
        owner: vec![],
        filters: vec![],
        nonempty_txn_signature: None,
    };
    x.accounts = vec![("ok".to_string(), good), ("x".to_string(), bad("0OIl")), ("y".to_string(), bad("also-bad"))];
    x.commitment = Some(42);
    match ConfigFilter::try_from_request(&x) {
        Err(ConfigFilterError::Pubkey(t, PubkeyError::Invalid)) => assert_eq!(t, "0OIl"),
        other => panic!("unexpected {:?}", other),
    }
}

#[test]
fn transaction_errors_come_after_accounts() {
    let mut x = empty_request();
    x.transactions = vec![(
        "t".to_string(),
        SubscribeRequestFilterTransactions {
            vote: None,
            failed: None,
            signature: Some("not a signature".to_string()),
            account_include: vec![],
            account_exclude: vec![],
            account_required: vec![],
        },
    )];
    assert!(matches!(ConfigFilter::try_from_request(&x), Err(ConfigFilterError::Signature(..))));
}

#[test]
fn commitment_of_a_request() {
    let mut x = empty_request();
    x.commitment = Some(9);
    assert!(matches!(ConfigFilter::try_from_request(&x), Err(ConfigFilterError::UnknownCommitment(9))));
    x.commitment = Some(3);
    assert!(matches!(
        ConfigFilter::try_from_request(&x),
        Err(ConfigFilterError::InvalidCommitment(CommitmentLevelProto::FirstShredReceived))
    ));
    x.commitment = Some(2);
    assert_eq!(ConfigFilter::try_from_request(&x).unwrap().commitment, Some(ConfigFilterCommitment::Finalized));
    x.commitment = None;
    assert_eq!(ConfigFilter::try_from_request(&x).unwrap().commitment, None);
}

#[test]
fn slots_names_and_slices_are_carried_over() {
    let mut x = empty_request();
    x.slots = vec![("a".to_string(), SubscribeRequestFilterSlots { filter_by_commitment: None })];
    x.entry = vec!["e1".to_string(), "e2".to_string()];
    x.blocks_meta = vec!["m".to_string()];
    x.accounts_data_slice = vec![SubscribeRequestAccountsDataSlice { offset: 3, length: 4 }];
    let f = ConfigFilter::try_from_request(&x).unwrap();
    assert_eq!(f.slots[0].0, "a");
    assert_eq!(f.slots[0].1.filter_by_commitment, None);
    assert_eq!(f.entries, vec!["e1".to_string(), "e2".to_string()]);
    assert_eq!(f.blocks_meta, vec!["m".to_string()]);
    assert_eq!(f.accounts_data_slice, vec![ConfigFilterAccountsDataSlice { offset: 3, length: 4 }]);
}

#[test]
fn conversion_keeps_each_name_once() {
    let mut x = empty_request();
    x.entry = vec!["a".to_string(), "b".to_string()];
    x.slots = vec![
        ("s1".to_string(), SubscribeRequestFilterSlots { filter_by_commitment: None }),
        ("s2".to_string(), SubscribeRequestFilterSlots { filter_by_commitment: Some(true) }),
    ];
    let f = ConfigFilter::try_from_request(&x).unwrap();
    assert_eq!(f.entries, vec!["a".to_string(), "b".to_string()]);
    let names: Vec<&String> = f.slots.iter().map(|(n, _)| n).collect();
    assert_eq!(names, vec!["s1", "s2"]);
    let back = f.to_request();
    assert_eq!(back.entry, vec!["a".to_string(), "b".to_string()]);
}

#[test]
fn checked_round_trip_gives_the_filters_back() {
    let c = sample();
    assert!(richat::request::filter_round_trips_exec(&c));
    assert!(richat::request::round_trip(&c).is_some());
}
