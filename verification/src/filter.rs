//! Subscription filters and the limits a server puts on them: how many
//! filters of each kind, how long their names, how many keys, which keys are
//! refused, and the shape of account data filters and data slices.
use vstd::prelude::*;
use base64::Engine;
use std::str::FromStr;

verus! {

/// Largest number of data filters in one accounts filter.
pub const MAX_FILTERS: usize = 4;

/// Largest memcmp data, in bytes.
pub const MAX_DATA_SIZE: usize = 128;

/// Largest base58 text of memcmp data.
pub const MAX_DATA_BASE58_SIZE: usize = 175;

/// Largest base64 text of memcmp data.
pub const MAX_DATA_BASE64_SIZE: usize = 172;

/// A 32-byte public key.
#[derive(Debug, Clone, Copy)]
pub struct Pubkey(pub [u8; 32]);

/// A 64-byte transaction signature.
#[derive(Debug, Clone, Copy)]
pub struct Signature(pub [u8; 64]);

/// The filter fields a blocks filter can ask to include.
#[derive(Debug, Clone, Copy, PartialEq, Eq, Structural)]
pub enum BlocksInclude {
    Transactions,
    Accounts,
    Entries,
}

/// Why a filter is refused by the limits.
#[derive(Debug, Clone, Copy)]
pub enum ConfigLimitsError {
    FilterNameOverflow { max: usize },
    FiltersOverflow { max: usize },
    EmptyNotAllowed,
    PubkeysOverflow { max: usize },
    PubkeyNotAllowed { pubkey: Pubkey },
    TooMuchFilters { max: usize },
    FilterDataOverflow,
    DatasizeDuplicated,
    DataSliceOutOfOrder,
    DataSliceOverlap,
    BlocksNotAllowed(BlocksInclude),
}

/// Filter on the slots stream.
#[derive(Debug, Clone, Copy, PartialEq, Eq, Structural)]
pub struct ConfigFilterSlots {
    pub filter_by_commitment: Option<bool>,
}

/// Comparison of an account's lamports with a value.
#[derive(Debug, Clone, Copy, PartialEq, Eq, Structural)]
pub enum ConfigFilterAccountsFilterLamports {
    Eq(u64),
    Ne(u64),
    Lt(u64),
    Gt(u64),
}

/// A condition on an account's data or lamports.
#[derive(Debug, Clone)]
pub enum ConfigFilterAccountsFilter {
    Memcmp { offset: usize, data: Vec<u8> },
    DataSize(u64),
    TokenAccountState,
    Lamports(ConfigFilterAccountsFilterLamports),
}

/// A part of account data to send instead of the whole.
#[derive(Debug, Clone, Copy, PartialEq, Eq, Structural)]
pub struct ConfigFilterAccountsDataSlice {
    pub offset: u64,
    pub length: u64,
}

/// Filter on the accounts stream.
#[derive(Debug, Clone)]
pub struct ConfigFilterAccounts {
    pub account: Vec<Pubkey>,
    pub owner: Vec<Pubkey>,
    pub filters: Vec<ConfigFilterAccountsFilter>,
    pub nonempty_txn_signature: Option<bool>,
}

/// Filter on the transactions stream.
#[derive(Debug, Clone)]
pub struct ConfigFilterTransactions {
    pub vote: Option<bool>,
    pub failed: Option<bool>,
    pub signature: Option<Signature>,
    pub account_include: Vec<Pubkey>,
    pub account_exclude: Vec<Pubkey>,
    pub account_required: Vec<Pubkey>,
}

/// Filter on the blocks stream.
#[derive(Debug, Clone)]
pub struct ConfigFilterBlocks {
    pub account_include: Vec<Pubkey>,
    pub include_transactions: Option<bool>,
    pub include_accounts: Option<bool>,
    pub include_entries: Option<bool>,
}

/// Commitment a subscriber asks for.
#[derive(Debug, Clone, Copy, PartialEq, Eq, Structural)]
pub enum ConfigFilterCommitment {
    Processed,
    Confirmed,
    Finalized,
}

/// Limit on slots filters.
#[derive(Debug, Clone, Copy, PartialEq, Eq, Structural)]
pub struct ConfigLimitsSlots {
    pub max: usize,
}

/// Limits on accounts filters.
#[derive(Debug, Clone)]
pub struct ConfigLimitsAccounts {
    pub max: usize,
    pub any: bool,
    pub account_max: usize,
    pub account_reject: Vec<Pubkey>,
    pub owner_max: usize,
    pub owner_reject: Vec<Pubkey>,
    pub data_slice_max: usize,
}

/// Limits on transactions filters.
#[derive(Debug, Clone)]
pub struct ConfigLimitsTransactions {
    pub max: usize,
    pub any: bool,
    pub account_include_max: usize,
    pub account_include_reject: Vec<Pubkey>,
    pub account_exclude_max: usize,
    pub account_required_max: usize,
}

/// Limit on entries filters.
#[derive(Debug, Clone, Copy, PartialEq, Eq, Structural)]
pub struct ConfigLimitsEntries {
    pub max: usize,
}

/// Limit on block-meta filters.
#[derive(Debug, Clone, Copy, PartialEq, Eq, Structural)]
pub struct ConfigLimitsBlocksMeta {
    pub max: usize,
}

/// Limits on blocks filters.
#[derive(Debug, Clone)]
pub struct ConfigLimitsBlocks {
    pub max: usize,
    pub account_include_max: usize,
    pub account_include_any: bool,
    pub account_include_reject: Vec<Pubkey>,
    pub include_transactions: bool,
    pub include_accounts: bool,
    pub include_entries: bool,
}

/// Byte length of a name as the limits count it.
pub open spec fn name_bytes(name: String) -> nat {
    vstd::utf8::encode_utf8(name@).len()
}

/// Whether some name is longer than `max` bytes.
pub open spec fn some_name_over(names: Seq<String>, max: usize) -> bool {
    exists|i: int| 0 <= i < names.len() && name_bytes(#[trigger] names[i]) > max
}

/// Result of the checks every kind of filter shares: names within
/// `name_max` bytes, then at most `max` filters.
pub open spec fn names_and_count(names: Seq<String>, name_max: usize, max: usize) -> Result<(), ConfigLimitsError> {
    if some_name_over(names, name_max) {
        Err(ConfigLimitsError::FilterNameOverflow { max: name_max })
    } else if names.len() > max {
        Err(ConfigLimitsError::FiltersOverflow { max })
    } else {
        Ok(())
    }
}

/// Names longer than `max` bytes are refused.
fn check_names_max(names: &Vec<String>, max: usize) -> (r: Result<(), ConfigLimitsError>)
    ensures
        (r is Ok) <==> !some_name_over(names@, max),
        (r is Err) ==> (r == Err::<(), ConfigLimitsError>(ConfigLimitsError::FilterNameOverflow { max })),
{
    let mut i: usize = 0;
    while i < names.len()
        invariant
            i <= names@.len(),
            forall|j: int| 0 <= j < i ==> name_bytes(#[trigger] names@[j]) <= max,
        decreases names@.len() - i,
    {
        if names[i].as_str().as_bytes().len() > max {
            return Err(ConfigLimitsError::FilterNameOverflow { max });
        }
        i = i + 1;
    }
    Ok(())
}

/// The shared checks of names and count.
fn check_names_and_count(names: &Vec<String>, name_max: usize, max: usize) -> (r: Result<(), ConfigLimitsError>)
    ensures
        r == names_and_count(names@, name_max, max),
{
    match check_names_max(names, name_max) {
        Ok(()) => {},
        Err(e) => {
            return Err(e);
        },
    }
    if names.len() <= max {
        Ok(())
    } else {
        Err(ConfigLimitsError::FiltersOverflow { max })
    }
}

impl ConfigLimitsSlots {
    /// Checks the names and the number of slots filters.
    pub fn check_filter(&self, name_max: usize, filters: &Vec<(String, ConfigFilterSlots)>) -> (r: Result<(), ConfigLimitsError>)
        ensures
            r == names_and_count(filters@.map_values(|f: (String, ConfigFilterSlots)| f.0), name_max, self.max),
    {
        let names = keys_of(filters);
        check_names_and_count(&names, name_max, self.max)
    }
}

impl ConfigLimitsEntries {
    /// Checks the names and the number of entries filters.
    pub fn check_filter(&self, name_max: usize, filters: &Vec<String>) -> (r: Result<(), ConfigLimitsError>)
        ensures
            r == names_and_count(filters@, name_max, self.max),
    {
        check_names_and_count(filters, name_max, self.max)
    }
}

impl ConfigLimitsBlocksMeta {
    /// Checks the names and the number of block-meta filters.
    pub fn check_filter(&self, name_max: usize, filters: &Vec<String>) -> (r: Result<(), ConfigLimitsError>)
        ensures
            r == names_and_count(filters@, name_max, self.max),
    {
        check_names_and_count(filters, name_max, self.max)
    }
}

/// The names of named filters, in order.
fn keys_of<T>(filters: &Vec<(String, T)>) -> (names: Vec<String>)
    ensures
        names@ == filters@.map_values(|f: (String, T)| f.0),
{
    let mut names: Vec<String> = Vec::new();
    let mut i: usize = 0;
    while i < filters.len()
        invariant
            i <= filters@.len(),
            names@ == filters@.take(i as int).map_values(|f: (String, T)| f.0),
        decreases filters@.len() - i,
    {
        let n = filters[i].0.clone();
        names.push(n);
        proof {
            assert(filters@.take(i + 1).map_values(|f: (String, T)| f.0) =~= filters@.take(
                i as int,
            ).map_values(|f: (String, T)| f.0).push(filters@[i as int].0));
        }
        i = i + 1;
    }
    proof {
        assert(filters@.take(filters@.len() as int) =~= filters@);
    }
    names
}


/// Whether key `k` is in `set` (keys compared by their bytes).
pub open spec fn key_in(set: Seq<Pubkey>, k: Pubkey) -> bool {
    exists|j: int| 0 <= j < set.len() && (#[trigger] set[j]).0@ == k.0@
}

/// The first key of `keys` that is in `reject`.
pub open spec fn first_rejected(keys: Seq<Pubkey>, reject: Seq<Pubkey>) -> Option<Pubkey>
    decreases keys.len(),
{
    if keys.len() == 0 {
        None
    } else if key_in(reject, keys[0]) {
        Some(keys[0])
    } else {
        first_rejected(keys.drop_first(), reject)
    }
}

/// Two keys have the same bytes.
pub fn same_key(a: &Pubkey, b: &Pubkey) -> (r: bool)
    ensures
        r == (a.0@ == b.0@),
{
    let mut i: usize = 0;
    while i < 32
        invariant
            i <= 32,
            forall|j: int| 0 <= j < i ==> a.0@[j] == b.0@[j],
        decreases 32 - i,
    {
        if a.0[i] != b.0[i] {
            return false;
        }
        i = i + 1;
    }
    assert(a.0@ =~= b.0@);
    true
}

/// Whether key `k` is in `set`.
pub fn contains_key(set: &Vec<Pubkey>, k: &Pubkey) -> (r: bool)
    ensures
        r == key_in(set@, *k),
{
    let mut i: usize = 0;
    while i < set.len()
        invariant
            i <= set@.len(),
            forall|j: int| 0 <= j < i ==> (#[trigger] set@[j]).0@ != k.0@,
        decreases set@.len() - i,
    {
        if same_key(&set[i], k) {
            return true;
        }
        i = i + 1;
    }
    false
}

/// The first key of `keys` that is in `reject`.
fn find_rejected(keys: &Vec<Pubkey>, reject: &Vec<Pubkey>) -> (r: Option<Pubkey>)
    ensures
        r == first_rejected(keys@, reject@),
{
    let mut i: usize = 0;
    assert(keys@.skip(0) =~= keys@);
    while i < keys.len()
        invariant
            i <= keys@.len(),
            first_rejected(keys@.skip(i as int), reject@) == first_rejected(keys@, reject@),
        decreases keys@.len() - i,
    {
        proof {
            assert(keys@.skip(i as int).drop_first() =~= keys@.skip(i + 1));
            assert(keys@.skip(i as int)[0] == keys@[i as int]);
        }
        if contains_key(reject, &keys[i]) {
            return Some(keys[i]);
        }
        i = i + 1;
    }
    proof {
        assert(keys@.skip(i as int).len() == 0);
    }
    None
}

/// The first problem among an accounts filter's data filters: memcmp data
/// over the size limit, or a second data-size filter.
pub open spec fn data_filters_error(fs: Seq<ConfigFilterAccountsFilter>, datasize_seen: bool) -> Option<ConfigLimitsError>
    decreases fs.len(),
{
    if fs.len() == 0 {
        None
    } else {
        match fs[0] {
            ConfigFilterAccountsFilter::Memcmp { data, .. } => if data@.len() > MAX_DATA_SIZE {
                Some(ConfigLimitsError::FilterDataOverflow)
            } else {
                data_filters_error(fs.drop_first(), datasize_seen)
            },
            ConfigFilterAccountsFilter::DataSize(_) => if datasize_seen {
                Some(ConfigLimitsError::DatasizeDuplicated)
            } else {
                data_filters_error(fs.drop_first(), true)
            },
            _ => data_filters_error(fs.drop_first(), datasize_seen),
        }
    }
}

/// The first problem of one accounts filter under the limits, in the order
/// the limits are checked.
pub open spec fn accounts_filter_error(l: ConfigLimitsAccounts, f: ConfigFilterAccounts) -> Option<ConfigLimitsError> {
    if f.account@.len() == 0 && f.owner@.len() == 0 && !l.any {
        Some(ConfigLimitsError::EmptyNotAllowed)
    } else if f.account@.len() > l.account_max {
        Some(ConfigLimitsError::PubkeysOverflow { max: l.account_max })
    } else if f.owner@.len() > l.owner_max {
        Some(ConfigLimitsError::PubkeysOverflow { max: l.owner_max })
    } else if first_rejected(f.account@, l.account_reject@) is Some {
        Some(ConfigLimitsError::PubkeyNotAllowed { pubkey: first_rejected(f.account@, l.account_reject@)->0 })
    } else if first_rejected(f.owner@, l.owner_reject@) is Some {
        Some(ConfigLimitsError::PubkeyNotAllowed { pubkey: first_rejected(f.owner@, l.owner_reject@)->0 })
    } else if f.filters@.len() > MAX_FILTERS {
        Some(ConfigLimitsError::TooMuchFilters { max: MAX_FILTERS })
    } else {
        data_filters_error(f.filters@, false)
    }
}

/// The first accounts filter with a problem, and that problem.
pub open spec fn first_accounts_error(l: ConfigLimitsAccounts, fs: Seq<(String, ConfigFilterAccounts)>) -> Option<ConfigLimitsError>
    decreases fs.len(),
{
    if fs.len() == 0 {
        None
    } else if accounts_filter_error(l, fs[0].1) is Some {
        accounts_filter_error(l, fs[0].1)
    } else {
        first_accounts_error(l, fs.drop_first())
    }
}

/// Data slice `i` starts after a later one.
pub open spec fn slice_out_of_order(ds: Seq<ConfigFilterAccountsDataSlice>, i: int) -> bool {
    exists|j: int| i < j < ds.len() && ds[i].offset > (#[trigger] ds[j]).offset
}

/// Data slice `i` starts before the end of an earlier one (the end computed
/// in wrapping 64-bit arithmetic).
pub open spec fn slice_overlaps(ds: Seq<ConfigFilterAccountsDataSlice>, i: int) -> bool {
    exists|j: int| 0 <= j < i && ds[i].offset < (#[trigger] ds[j]).offset.wrapping_add(ds[j].length)
}

/// The first data slice from `i` on that is out of order or overlaps an
/// earlier one; out of order is reported first.
pub open spec fn slices_error_from(ds: Seq<ConfigFilterAccountsDataSlice>, i: int) -> Option<ConfigLimitsError>
    decreases ds.len() - i,
{
    if i >= ds.len() || i < 0 {
        None
    } else if slice_out_of_order(ds, i) {
        Some(ConfigLimitsError::DataSliceOutOfOrder)
    } else if slice_overlaps(ds, i) {
        Some(ConfigLimitsError::DataSliceOverlap)
    } else {
        slices_error_from(ds, i + 1)
    }
}

/// The result of checking accounts filters and data slices: names and
/// count, then each filter in order, then the number, order and overlap of
/// the data slices.
pub open spec fn accounts_check(
    l: ConfigLimitsAccounts,
    name_max: usize,
    fs: Seq<(String, ConfigFilterAccounts)>,
    ds: Seq<ConfigFilterAccountsDataSlice>,
) -> Result<(), ConfigLimitsError> {
    let names = fs.map_values(|f: (String, ConfigFilterAccounts)| f.0);
    if names_and_count(names, name_max, l.max) is Err {
        names_and_count(names, name_max, l.max)
    } else if first_accounts_error(l, fs) is Some {
        Err(first_accounts_error(l, fs)->0)
    } else if ds.len() > l.data_slice_max {
        Err(ConfigLimitsError::FiltersOverflow { max: l.data_slice_max })
    } else {
        match slices_error_from(ds, 0) {
            Some(e) => Err(e),
            None => Ok(()),
        }
    }
}

/// The first problem among data filters, from an index on.
fn check_data_filters(fs: &Vec<ConfigFilterAccountsFilter>) -> (r: Option<ConfigLimitsError>)
    ensures
        r == data_filters_error(fs@, false),
{
    let mut datasize_defined = false;
    let mut i: usize = 0;
    assert(fs@.skip(0) =~= fs@);
    while i < fs.len()
        invariant
            i <= fs@.len(),
            data_filters_error(fs@.skip(i as int), datasize_defined) == data_filters_error(fs@, false),
        decreases fs@.len() - i,
    {
        proof {
            assert(fs@.skip(i as int).drop_first() =~= fs@.skip(i + 1));
            assert(fs@.skip(i as int)[0] == fs@[i as int]);
        }
        match fs[i].compared_len() {
            Some(n) => {
                if n > MAX_DATA_SIZE {
                    return Some(ConfigLimitsError::FilterDataOverflow);
                }
            },
            None => {
                if fs[i].is_data_size() {
                    if datasize_defined {
                        return Some(ConfigLimitsError::DatasizeDuplicated);
                    }
                    datasize_defined = true;
                }
            },
        }
        i = i + 1;
    }
    proof {
        assert(fs@.skip(i as int).len() == 0);
    }
    None
}

impl ConfigLimitsAccounts {
    /// The first problem of one accounts filter.
    fn filter_error(&self, f: &ConfigFilterAccounts) -> (r: Option<ConfigLimitsError>)
        ensures
            r == accounts_filter_error(*self, *f),
    {
        if f.account.len() == 0 && f.owner.len() == 0 && !self.any {
            return Some(ConfigLimitsError::EmptyNotAllowed);
        }
        if f.account.len() > self.account_max {
            return Some(ConfigLimitsError::PubkeysOverflow { max: self.account_max });
        }
        if f.owner.len() > self.owner_max {
            return Some(ConfigLimitsError::PubkeysOverflow { max: self.owner_max });
        }
        if let Some(pubkey) = find_rejected(&f.account, &self.account_reject) {
            return Some(ConfigLimitsError::PubkeyNotAllowed { pubkey });
        }
        if let Some(pubkey) = find_rejected(&f.owner, &self.owner_reject) {
            return Some(ConfigLimitsError::PubkeyNotAllowed { pubkey });
        }
        if f.filters.len() > MAX_FILTERS {
            return Some(ConfigLimitsError::TooMuchFilters { max: MAX_FILTERS });
        }
        check_data_filters(&f.filters)
    }

    /// Checks accounts filters and the data slices against the limits.
    pub fn check_filter(
        &self,
        name_max: usize,
        filters: &Vec<(String, ConfigFilterAccounts)>,
        data_slices: &Vec<ConfigFilterAccountsDataSlice>,
    ) -> (r: Result<(), ConfigLimitsError>)
        ensures
            r == accounts_check(*self, name_max, filters@, data_slices@),
    {
        let names = keys_of(filters);
        match check_names_and_count(&names, name_max, self.max) {
            Ok(()) => {},
            Err(e) => {
                return Err(e);
            },
        }
        let mut i: usize = 0;
        assert(filters@.skip(0) =~= filters@);
        while i < filters.len()
            invariant
                i <= filters@.len(),
                first_accounts_error(*self, filters@.skip(i as int)) == first_accounts_error(*self, filters@),
                names_and_count(filters@.map_values(|f: (String, ConfigFilterAccounts)| f.0), name_max, self.max) is Ok,
            decreases filters@.len() - i,
        {
            proof {
                assert(filters@.skip(i as int).drop_first() =~= filters@.skip(i + 1));
                assert(filters@.skip(i as int)[0] == filters@[i as int]);
            }
            if let Some(e) = self.filter_error(&filters[i].1) {
                return Err(e);
            }
            i = i + 1;
        }
        proof {
            assert(filters@.skip(i as int).len() == 0);
        }
        if data_slices.len() > self.data_slice_max {
            return Err(ConfigLimitsError::FiltersOverflow { max: self.data_slice_max });
        }
        match check_data_slices(data_slices) {
            Some(e) => Err(e),
            None => Ok(()),
        }
    }
}

/// The first data slice that is out of order or overlaps an earlier one.
fn check_data_slices(ds: &Vec<ConfigFilterAccountsDataSlice>) -> (r: Option<ConfigLimitsError>)
    ensures
        r == slices_error_from(ds@, 0),
{
    let mut i: usize = 0;
    while i < ds.len()
        invariant
            i <= ds@.len(),
            slices_error_from(ds@, i as int) == slices_error_from(ds@, 0),
        decreases ds@.len() - i,
    {
        let a = ds[i];
        let mut j: usize = i + 1;
        while j < ds.len()
            invariant
                i < j <= ds@.len(),
                a == ds@[i as int],
                slices_error_from(ds@, i as int) == slices_error_from(ds@, 0),
                forall|k: int| i < k < j ==> a.offset <= (#[trigger] ds@[k]).offset,
            decreases ds@.len() - j,
        {
            if a.offset > ds[j].offset {
                proof {
                    assert(slice_out_of_order(ds@, i as int));
                }
                return Some(ConfigLimitsError::DataSliceOutOfOrder);
            }
            j = j + 1;
        }
        let mut k: usize = 0;
        while k < i
            invariant
                k <= i < ds@.len(),
                a == ds@[i as int],
                slices_error_from(ds@, i as int) == slices_error_from(ds@, 0),
                !slice_out_of_order(ds@, i as int),
                forall|m: int| 0 <= m < k ==> a.offset >= (#[trigger] ds@[m]).offset.wrapping_add(ds@[m].length),
            decreases i - k,
        {
            let b = ds[k];
            if a.offset < b.offset.wrapping_add(b.length) {
                proof {
                    assert(ds@[k as int] == b);
                    assert(slice_overlaps(ds@, i as int));
                }
                return Some(ConfigLimitsError::DataSliceOverlap);
            }
            k = k + 1;
        }
        proof {
            assert(!slice_overlaps(ds@, i as int));
        }
        i = i + 1;
    }
    None
}


impl ConfigFilterAccountsFilter {
    /// Length of the data a data comparison filter compares, if it is one.
    pub fn compared_len(&self) -> (r: Option<usize>)
        ensures
            r == match *self {
                ConfigFilterAccountsFilter::Memcmp { data, .. } => Some(data.len()),
                _ => None::<usize>,
            },
    {
        match self {
            ConfigFilterAccountsFilter::Memcmp { data, .. } => Some(data.len()),
            _ => None,
        }
    }

    /// Whether the filter is on the data size.
    pub fn is_data_size(&self) -> (r: bool)
        ensures
            r == (*self is DataSize),
    {
        match self {
            ConfigFilterAccountsFilter::DataSize(_) => true,
            _ => false,
        }
    }
}


/// The first problem of one transactions filter under the limits.
pub open spec fn transactions_filter_error(l: ConfigLimitsTransactions, f: ConfigFilterTransactions) -> Option<ConfigLimitsError> {
    if f.vote is None && f.failed is None && f.account_include@.len() == 0 && f.account_exclude@.len() == 0
        && f.account_required@.len() == 0 && !l.any {
        Some(ConfigLimitsError::EmptyNotAllowed)
    } else if f.account_include@.len() > l.account_include_max {
        Some(ConfigLimitsError::PubkeysOverflow { max: l.account_include_max })
    } else if f.account_exclude@.len() > l.account_exclude_max {
        Some(ConfigLimitsError::PubkeysOverflow { max: l.account_exclude_max })
    } else if f.account_required@.len() > l.account_required_max {
        Some(ConfigLimitsError::PubkeysOverflow { max: l.account_required_max })
    } else if first_rejected(f.account_include@, l.account_include_reject@) is Some {
        Some(
            ConfigLimitsError::PubkeyNotAllowed {
                pubkey: first_rejected(f.account_include@, l.account_include_reject@)->0,
            },
        )
    } else {
        None
    }
}

/// The first transactions filter with a problem, and that problem.
pub open spec fn first_transactions_error(l: ConfigLimitsTransactions, fs: Seq<(String, ConfigFilterTransactions)>) -> Option<ConfigLimitsError>
    decreases fs.len(),
{
    if fs.len() == 0 {
        None
    } else if transactions_filter_error(l, fs[0].1) is Some {
        transactions_filter_error(l, fs[0].1)
    } else {
        first_transactions_error(l, fs.drop_first())
    }
}

/// The result of checking transactions filters: names and count, then each
/// filter in order.
pub open spec fn transactions_check(
    l: ConfigLimitsTransactions,
    name_max: usize,
    fs: Seq<(String, ConfigFilterTransactions)>,
) -> Result<(), ConfigLimitsError> {
    let names = fs.map_values(|f: (String, ConfigFilterTransactions)| f.0);
    if names_and_count(names, name_max, l.max) is Err {
        names_and_count(names, name_max, l.max)
    } else if first_transactions_error(l, fs) is Some {
        Err(first_transactions_error(l, fs)->0)
    } else {
        Ok(())
    }
}

impl ConfigLimitsTransactions {
    /// The first problem of one transactions filter.
    fn filter_error(&self, f: &ConfigFilterTransactions) -> (r: Option<ConfigLimitsError>)
        ensures
            r == transactions_filter_error(*self, *f),
    {
        if f.vote.is_none() && f.failed.is_none() && f.account_include.len() == 0
            && f.account_exclude.len() == 0 && f.account_required.len() == 0 && !self.any {
            return Some(ConfigLimitsError::EmptyNotAllowed);
        }
        if f.account_include.len() > self.account_include_max {
            return Some(ConfigLimitsError::PubkeysOverflow { max: self.account_include_max });
        }
        if f.account_exclude.len() > self.account_exclude_max {
            return Some(ConfigLimitsError::PubkeysOverflow { max: self.account_exclude_max });
        }
        if f.account_required.len() > self.account_required_max {
            return Some(ConfigLimitsError::PubkeysOverflow { max: self.account_required_max });
        }
        if let Some(pubkey) = find_rejected(&f.account_include, &self.account_include_reject) {
            return Some(ConfigLimitsError::PubkeyNotAllowed { pubkey });
        }
        None
    }

    /// Checks transactions filters against the limits.
    pub fn check_filter(&self, name_max: usize, filters: &Vec<(String, ConfigFilterTransactions)>) -> (r: Result<(), ConfigLimitsError>)
        ensures
            r == transactions_check(*self, name_max, filters@),
    {
        let names = keys_of(filters);
        match check_names_and_count(&names, name_max, self.max) {
            Ok(()) => {},
            Err(e) => {
                return Err(e);
            },
        }
        let mut i: usize = 0;
        assert(filters@.skip(0) =~= filters@);
        while i < filters.len()
            invariant
                i <= filters@.len(),
                first_transactions_error(*self, filters@.skip(i as int)) == first_transactions_error(*self, filters@),
                names_and_count(filters@.map_values(|f: (String, ConfigFilterTransactions)| f.0), name_max, self.max) is Ok,
            decreases filters@.len() - i,
        {
            proof {
                assert(filters@.skip(i as int).drop_first() =~= filters@.skip(i + 1));
                assert(filters@.skip(i as int)[0] == filters@[i as int]);
            }
            if let Some(e) = self.filter_error(&filters[i].1) {
                return Err(e);
            }
            i = i + 1;
        }
        proof {
            assert(filters@.skip(i as int).len() == 0);
        }
        Ok(())
    }
}

/// The first problem of one blocks filter under the limits: each kind of
/// content a filter asks for needs its own switch.
pub open spec fn blocks_filter_error(l: ConfigLimitsBlocks, f: ConfigFilterBlocks) -> Option<ConfigLimitsError> {
    if f.account_include@.len() == 0 && !l.account_include_any {
        Some(ConfigLimitsError::EmptyNotAllowed)
    } else if f.account_include@.len() > l.account_include_max {
        Some(ConfigLimitsError::PubkeysOverflow { max: l.account_include_max })
    } else if !(f.include_transactions == Some(false) || l.include_transactions) {
        Some(ConfigLimitsError::BlocksNotAllowed(BlocksInclude::Transactions))
    } else if !(f.include_accounts != Some(true) || l.include_accounts) {
        Some(ConfigLimitsError::BlocksNotAllowed(BlocksInclude::Accounts))
    } else if !(f.include_entries != Some(true) || l.include_entries) {
        Some(ConfigLimitsError::BlocksNotAllowed(BlocksInclude::Entries))
    } else if first_rejected(f.account_include@, l.account_include_reject@) is Some {
        Some(
            ConfigLimitsError::PubkeyNotAllowed {
                pubkey: first_rejected(f.account_include@, l.account_include_reject@)->0,
            },
        )
    } else {
        None
    }
}

/// The first blocks filter with a problem, and that problem.
pub open spec fn first_blocks_error(l: ConfigLimitsBlocks, fs: Seq<(String, ConfigFilterBlocks)>) -> Option<ConfigLimitsError>
    decreases fs.len(),
{
    if fs.len() == 0 {
        None
    } else if blocks_filter_error(l, fs[0].1) is Some {
        blocks_filter_error(l, fs[0].1)
    } else {
        first_blocks_error(l, fs.drop_first())
    }
}

/// The result of checking blocks filters: names and count, then each filter
/// in order.
pub open spec fn blocks_check(l: ConfigLimitsBlocks, name_max: usize, fs: Seq<(String, ConfigFilterBlocks)>) -> Result<(), ConfigLimitsError> {
    let names = fs.map_values(|f: (String, ConfigFilterBlocks)| f.0);
    if names_and_count(names, name_max, l.max) is Err {
        names_and_count(names, name_max, l.max)
    } else if first_blocks_error(l, fs) is Some {
        Err(first_blocks_error(l, fs)->0)
    } else {
        Ok(())
    }
}

impl ConfigLimitsBlocks {
    /// The first problem of one blocks filter.
    fn filter_error(&self, f: &ConfigFilterBlocks) -> (r: Option<ConfigLimitsError>)
        ensures
            r == blocks_filter_error(*self, *f),
    {
        if f.account_include.len() == 0 && !self.account_include_any {
            return Some(ConfigLimitsError::EmptyNotAllowed);
        }
        if f.account_include.len() > self.account_include_max {
            return Some(ConfigLimitsError::PubkeysOverflow { max: self.account_include_max });
        }
        let tx_off = match f.include_transactions {
            Some(b) => !b,
            None => false,
        };
        if !(tx_off || self.include_transactions) {
            return Some(ConfigLimitsError::BlocksNotAllowed(BlocksInclude::Transactions));
        }
        let accounts_on = match f.include_accounts {
            Some(b) => b,
            None => false,
        };
        if !(!accounts_on || self.include_accounts) {
            return Some(ConfigLimitsError::BlocksNotAllowed(BlocksInclude::Accounts));
        }
        let entries_on = match f.include_entries {
            Some(b) => b,
            None => false,
        };
        if !(!entries_on || self.include_entries) {
            return Some(ConfigLimitsError::BlocksNotAllowed(BlocksInclude::Entries));
        }
        if let Some(pubkey) = find_rejected(&f.account_include, &self.account_include_reject) {
            return Some(ConfigLimitsError::PubkeyNotAllowed { pubkey });
        }
        None
    }

    /// Checks blocks filters against the limits.
    pub fn check_filter(&self, name_max: usize, filters: &Vec<(String, ConfigFilterBlocks)>) -> (r: Result<(), ConfigLimitsError>)
        ensures
            r == blocks_check(*self, name_max, filters@),
    {
        let names = keys_of(filters);
        match check_names_and_count(&names, name_max, self.max) {
            Ok(()) => {},
            Err(e) => {
                return Err(e);
            },
        }
        let mut i: usize = 0;
        assert(filters@.skip(0) =~= filters@);
        while i < filters.len()
            invariant
                i <= filters@.len(),
                first_blocks_error(*self, filters@.skip(i as int)) == first_blocks_error(*self, filters@),
                names_and_count(filters@.map_values(|f: (String, ConfigFilterBlocks)| f.0), name_max, self.max) is Ok,
            decreases filters@.len() - i,
        {
            proof {
                assert(filters@.skip(i as int).drop_first() =~= filters@.skip(i + 1));
                assert(filters@.skip(i as int)[0] == filters@[i as int]);
            }
            if let Some(e) = self.filter_error(&filters[i].1) {
                return Err(e);
            }
            i = i + 1;
        }
        proof {
            assert(filters@.skip(i as int).len() == 0);
        }
        Ok(())
    }
}

/// A subscription's filters, each kind named.
#[derive(Debug, Clone)]
pub struct ConfigFilter {
    pub slots: Vec<(String, ConfigFilterSlots)>,
    pub accounts: Vec<(String, ConfigFilterAccounts)>,
    pub accounts_data_slice: Vec<ConfigFilterAccountsDataSlice>,
    pub transactions: Vec<(String, ConfigFilterTransactions)>,
    pub transactions_status: Vec<(String, ConfigFilterTransactions)>,
    pub entries: Vec<String>,
    pub blocks_meta: Vec<String>,
    pub blocks: Vec<(String, ConfigFilterBlocks)>,
    pub commitment: Option<ConfigFilterCommitment>,
}

/// No two named filters of a kind share a name.
pub open spec fn distinct_names<V>(m: Seq<(String, V)>) -> bool {
    forall|i: int, j: int| 0 <= i < j < m.len() ==> (#[trigger] m[i]).0@ != (#[trigger] m[j]).0@
}

/// No two names of a list are equal.
pub open spec fn distinct_strings(m: Seq<String>) -> bool {
    forall|i: int, j: int| 0 <= i < j < m.len() ==> (#[trigger] m[i])@ != (#[trigger] m[j])@
}

impl ConfigFilter {
    /// Each kind of filter is a map: its names are distinct.
    pub open spec fn names_distinct(&self) -> bool {
        &&& distinct_names(self.slots@)
        &&& distinct_names(self.accounts@)
        &&& distinct_names(self.transactions@)
        &&& distinct_names(self.transactions_status@)
        &&& distinct_strings(self.entries@)
        &&& distinct_strings(self.blocks_meta@)
        &&& distinct_names(self.blocks@)
    }
}

/// All the limits a server puts on subscriptions.
#[derive(Debug, Clone)]
pub struct ConfigLimits {
    pub name_max: usize,
    pub slots: ConfigLimitsSlots,
    pub accounts: ConfigLimitsAccounts,
    pub transactions: ConfigLimitsTransactions,
    pub transactions_status: ConfigLimitsTransactions,
    pub entries: ConfigLimitsEntries,
    pub blocks_meta: ConfigLimitsBlocksMeta,
    pub blocks: ConfigLimitsBlocks,
}

/// The result of checking a whole subscription: each kind in turn (slots,
/// accounts, transactions, transaction statuses, entries, block metas,
/// blocks), the first refusal winning.
pub open spec fn limits_check(l: ConfigLimits, f: ConfigFilter) -> Result<(), ConfigLimitsError> {
    let slots = names_and_count(f.slots@.map_values(|x: (String, ConfigFilterSlots)| x.0), l.name_max, l.slots.max);
    let accounts = accounts_check(l.accounts, l.name_max, f.accounts@, f.accounts_data_slice@);
    let transactions = transactions_check(l.transactions, l.name_max, f.transactions@);
    let transactions_status = transactions_check(l.transactions_status, l.name_max, f.transactions_status@);
    let entries = names_and_count(f.entries@, l.name_max, l.entries.max);
    let blocks_meta = names_and_count(f.blocks_meta@, l.name_max, l.blocks_meta.max);
    let blocks = blocks_check(l.blocks, l.name_max, f.blocks@);
    if slots is Err {
        slots
    } else if accounts is Err {
        accounts
    } else if transactions is Err {
        transactions
    } else if transactions_status is Err {
        transactions_status
    } else if entries is Err {
        entries
    } else if blocks_meta is Err {
        blocks_meta
    } else {
        blocks
    }
}

impl ConfigLimits {
    /// Checks every kind of filter of a subscription against its limits.
    pub fn check_filter(&self, filter: &ConfigFilter) -> (r: Result<(), ConfigLimitsError>)
        ensures
            r == limits_check(*self, *filter),
    {
        match self.slots.check_filter(self.name_max, &filter.slots) {
            Ok(()) => {},
            Err(e) => {
                return Err(e);
            },
        }
        match self.accounts.check_filter(self.name_max, &filter.accounts, &filter.accounts_data_slice) {
            Ok(()) => {},
            Err(e) => {
                return Err(e);
            },
        }
        match self.transactions.check_filter(self.name_max, &filter.transactions) {
            Ok(()) => {},
            Err(e) => {
                return Err(e);
            },
        }
        match self.transactions_status.check_filter(self.name_max, &filter.transactions_status) {
            Ok(()) => {},
            Err(e) => {
                return Err(e);
            },
        }
        match self.entries.check_filter(self.name_max, &filter.entries) {
            Ok(()) => {},
            Err(e) => {
                return Err(e);
            },
        }
        match self.blocks_meta.check_filter(self.name_max, &filter.blocks_meta) {
            Ok(()) => {},
            Err(e) => {
                return Err(e);
            },
        }
        self.blocks.check_filter(self.name_max, &filter.blocks)
    }
}


/// Why a text is not a public key.
#[derive(Debug, Clone, Copy, PartialEq, Eq, Structural)]
pub enum PubkeyError {
    WrongSize,
    Invalid,
}

/// Why a text is not a signature.
#[derive(Debug, Clone, Copy, PartialEq, Eq, Structural)]
pub enum SignatureError {
    WrongSize,
    Invalid,
}

/// The public key a base58 text denotes, or why it denotes none.
pub uninterp spec fn pubkey_parsed(text: Seq<char>) -> Result<Seq<u8>, PubkeyError>;

/// The signature a base58 text denotes, or why it denotes none.
pub uninterp spec fn signature_parsed(text: Seq<char>) -> Result<Seq<u8>, SignatureError>;

/// The bytes a base58 text decodes to, if it is valid base58.
pub uninterp spec fn base58_decoded(text: Seq<char>) -> Option<Seq<u8>>;

/// The bytes a standard base64 text decodes to, if it is valid base64.
pub uninterp spec fn base64_decoded(text: Seq<char>) -> Option<Seq<u8>>;

/// The bytes of a parsed public key, or the error.
pub open spec fn key_view(r: Result<Pubkey, PubkeyError>) -> Result<Seq<u8>, PubkeyError> {
    match r {
        Ok(k) => Ok(k.0@),
        Err(e) => Err(e),
    }
}

/// The bytes of a parsed signature, or the error.
pub open spec fn signature_view(r: Result<Signature, SignatureError>) -> Result<Seq<u8>, SignatureError> {
    match r {
        Ok(s) => Ok(s.0@),
        Err(e) => Err(e),
    }
}

/// A text longer than `max` bytes gave the wrong-size error.
pub open spec fn long_text_refused<T, E>(text: Seq<char>, max: nat, r: Result<T, E>, wrong_size: E) -> bool {
    vstd::utf8::encode_utf8(text).len() > max ==> r == Err::<T, E>(wrong_size)
}

/// Parses a public key with `solana_sdk::pubkey::Pubkey::from_str`: texts
/// longer than 44 bytes are refused as of the wrong size before decoding.
/// What the base58 decoding accepts is not restated here.
#[verifier::external_body]
pub(crate) fn parse_pubkey(text: &str) -> (r: Result<Pubkey, PubkeyError>)
    ensures
        pubkey_parsed(text@) == key_view(r),
        long_text_refused(text@, 44, r, PubkeyError::WrongSize),
{
    match solana_sdk::pubkey::Pubkey::from_str(text) {
        Ok(k) => Ok(Pubkey(k.to_bytes())),
        Err(solana_sdk::pubkey::ParsePubkeyError::WrongSize) => Err(PubkeyError::WrongSize),
        Err(solana_sdk::pubkey::ParsePubkeyError::Invalid) => Err(PubkeyError::Invalid),
    }
}

/// Parses a signature with `solana_sdk::signature::Signature::from_str`:
/// texts longer than 88 bytes are refused as of the wrong size before
/// decoding. What the base58 decoding accepts is not restated here.
#[verifier::external_body]
pub(crate) fn parse_signature(text: &str) -> (r: Result<Signature, SignatureError>)
    ensures
        signature_parsed(text@) == signature_view(r),
        long_text_refused(text@, 88, r, SignatureError::WrongSize),
{
    match solana_sdk::signature::Signature::from_str(text) {
        Ok(s) => Ok(Signature(s.into())),
        Err(solana_sdk::signature::ParseSignatureError::WrongSize) => Err(SignatureError::WrongSize),
        Err(solana_sdk::signature::ParseSignatureError::Invalid) => Err(SignatureError::Invalid),
    }
}

/// Decodes base58 text with `bs58::decode(..).into_vec()`; `None` when the
/// text is not base58. The decoded bytes are only named, not restated.
#[verifier::external_body]
pub(crate) fn decode_base58(text: &str) -> (r: Option<Vec<u8>>)
    ensures
        match r {
            Some(v) => base58_decoded(text@) == Some(v@),
            None => base58_decoded(text@) is None,
        },
{
    bs58::decode(text).into_vec().ok()
}

/// Decodes standard base64 text with `base64`'s `STANDARD` engine; `None`
/// when the text is not valid. The decoded bytes are only named.
#[verifier::external_body]
pub(crate) fn decode_base64(text: &str) -> (r: Option<Vec<u8>>)
    ensures
        match r {
            Some(v) => base64_decoded(text@) == Some(v@),
            None => base64_decoded(text@) is None,
        },
{
    base64::engine::general_purpose::STANDARD.decode(text).ok()
}

/// A request's offset as a machine word.
fn to_usize(x: u64) -> (r: usize)
    requires
        x <= usize::MAX,
    ensures
        r == x,
{
    x as usize
}

/// A field a request left out.
#[derive(Debug, Clone, Copy, PartialEq, Eq, Structural)]
pub enum RequiredField {
    Filter,
    Data,
    Cmp,
}

/// Commitment levels a request can name.
#[derive(Debug, Clone, Copy, PartialEq, Eq, Structural)]
pub enum CommitmentLevelProto {
    Processed,
    Confirmed,
    Finalized,
    FirstShredReceived,
    Completed,
    CreatedBank,
    Dead,
}

/// Why a request's filters cannot be used.
#[derive(Debug, Clone)]
pub enum ConfigFilterError {
    Limits(ConfigLimitsError),
    FieldNotDefined(RequiredField),
    TokenAccountStateInvalid,
    InvalidBase58,
    InvalidBase64,
    Pubkey(String, PubkeyError),
    Signature(String, SignatureError),
    UnknownCommitment(i32),
    InvalidCommitment(CommitmentLevelProto),
}

/// Memcmp data of a request: raw bytes or text to decode.
#[derive(Debug, Clone)]
pub enum MemcmpData {
    Bytes(Vec<u8>),
    Base58(String),
    Base64(String),
}

/// A memcmp filter of a request.
#[derive(Debug, Clone)]
pub struct SubscribeRequestFilterAccountsFilterMemcmp {
    pub offset: u64,
    pub data: Option<MemcmpData>,
}

/// A lamports comparison of a request.
#[derive(Debug, Clone, Copy, PartialEq, Eq, Structural)]
pub struct SubscribeRequestFilterAccountsFilterLamports {
    pub cmp: Option<ConfigFilterAccountsFilterLamports>,
}

/// The kinds of account data filters of a request.
#[derive(Debug, Clone)]
pub enum AccountsFilterData {
    Memcmp(SubscribeRequestFilterAccountsFilterMemcmp),
    Datasize(u64),
    TokenAccountState(bool),
    Lamports(SubscribeRequestFilterAccountsFilterLamports),
}

/// An account data filter of a request.
#[derive(Debug, Clone)]
pub struct SubscribeRequestFilterAccountsFilter {
    pub filter: Option<AccountsFilterData>,
}

/// The memcmp data after decoding, or why it is refused.
pub open spec fn memcmp_bytes(data: MemcmpData) -> Result<Seq<u8>, ConfigFilterError> {
    match data {
        MemcmpData::Bytes(b) => Ok(b@),
        MemcmpData::Base58(t) => if vstd::utf8::encode_utf8(t@).len() > MAX_DATA_BASE58_SIZE {
            Err(ConfigFilterError::Limits(ConfigLimitsError::FilterDataOverflow))
        } else {
            match base58_decoded(t@) {
                Some(b) => Ok(b),
                None => Err(ConfigFilterError::InvalidBase58),
            }
        },
        MemcmpData::Base64(t) => if vstd::utf8::encode_utf8(t@).len() > MAX_DATA_BASE64_SIZE {
            Err(ConfigFilterError::Limits(ConfigLimitsError::FilterDataOverflow))
        } else {
            match base64_decoded(t@) {
                Some(b) => Ok(b),
                None => Err(ConfigFilterError::InvalidBase64),
            }
        },
    }
}

/// A lamports comparison of a request, converted.
pub open spec fn lamports_from_request(v: SubscribeRequestFilterAccountsFilterLamports) -> Result<ConfigFilterAccountsFilterLamports, ConfigFilterError> {
    match v.cmp {
        Some(c) => Ok(c),
        None => Err(ConfigFilterError::FieldNotDefined(RequiredField::Cmp)),
    }
}

/// An account data filter of a request, converted: the kind must be set;
/// memcmp data must be set, decode, and fit `MAX_DATA_SIZE`; a token
/// account state filter must be `true`.
pub open spec fn accounts_filter_from_request(v: SubscribeRequestFilterAccountsFilter) -> Result<(u64, Seq<u8>, Option<ConfigFilterAccountsFilter>), ConfigFilterError> {
    match v.filter {
        None => Err(ConfigFilterError::FieldNotDefined(RequiredField::Filter)),
        Some(AccountsFilterData::Memcmp(m)) => match m.data {
            None => Err(ConfigFilterError::FieldNotDefined(RequiredField::Data)),
            Some(d) => match memcmp_bytes(d) {
                Err(e) => Err(e),
                Ok(b) => if b.len() > MAX_DATA_SIZE {
                    Err(ConfigFilterError::Limits(ConfigLimitsError::FilterDataOverflow))
                } else {
                    Ok((m.offset, b, None))
                },
            },
        },
        Some(AccountsFilterData::Datasize(n)) => Ok((0u64, Seq::empty(), Some(ConfigFilterAccountsFilter::DataSize(n)))),
        Some(AccountsFilterData::TokenAccountState(b)) => if !b {
            Err(ConfigFilterError::TokenAccountStateInvalid)
        } else {
            Ok((0u64, Seq::empty(), Some(ConfigFilterAccountsFilter::TokenAccountState)))
        },
        Some(AccountsFilterData::Lamports(l)) => match lamports_from_request(l) {
            Ok(c) => Ok((0u64, Seq::empty(), Some(ConfigFilterAccountsFilter::Lamports(c)))),
            Err(e) => Err(e),
        },
    }
}

/// Whether a converted filter is what the request's conversion describes:
/// a memcmp filter with that offset and data, or the other kind as given.
pub open spec fn matches_conversion(f: ConfigFilterAccountsFilter, c: (u64, Seq<u8>, Option<ConfigFilterAccountsFilter>)) -> bool {
    match c.2 {
        None => f matches ConfigFilterAccountsFilter::Memcmp { offset, data } && offset == c.0 && data@ == c.1,
        Some(g) => match (f, g) {
            (ConfigFilterAccountsFilter::DataSize(a), ConfigFilterAccountsFilter::DataSize(b)) => a == b,
            (ConfigFilterAccountsFilter::TokenAccountState, ConfigFilterAccountsFilter::TokenAccountState) => true,
            (ConfigFilterAccountsFilter::Lamports(a), ConfigFilterAccountsFilter::Lamports(b)) => a == b,
            _ => false,
        },
    }
}

impl ConfigFilterAccountsFilterLamports {
    /// Converts a lamports comparison of a request.
    pub fn try_from_request(value: SubscribeRequestFilterAccountsFilterLamports) -> (r: Result<ConfigFilterAccountsFilterLamports, ConfigFilterError>)
        ensures
            r == lamports_from_request(value),
    {
        match value.cmp {
            Some(c) => Ok(c),
            None => Err(ConfigFilterError::FieldNotDefined(RequiredField::Cmp)),
        }
    }
}

/// Decodes memcmp data of a request.
fn decode_memcmp_data(data: &MemcmpData) -> (r: Result<Vec<u8>, ConfigFilterError>)
    ensures
        match r {
            Ok(v) => memcmp_bytes(*data) == Ok::<Seq<u8>, ConfigFilterError>(v@),
            Err(e) => memcmp_bytes(*data) == Err::<Seq<u8>, ConfigFilterError>(e),
        },
{
    match data {
        MemcmpData::Bytes(b) => Ok(b.clone()),
        MemcmpData::Base58(t) => {
            if t.as_str().as_bytes().len() > MAX_DATA_BASE58_SIZE {
                return Err(ConfigFilterError::Limits(ConfigLimitsError::FilterDataOverflow));
            }
            match decode_base58(t.as_str()) {
                Some(v) => Ok(v),
                None => Err(ConfigFilterError::InvalidBase58),
            }
        },
        MemcmpData::Base64(t) => {
            if t.as_str().as_bytes().len() > MAX_DATA_BASE64_SIZE {
                return Err(ConfigFilterError::Limits(ConfigLimitsError::FilterDataOverflow));
            }
            match decode_base64(t.as_str()) {
                Some(v) => Ok(v),
                None => Err(ConfigFilterError::InvalidBase64),
            }
        },
    }
}

impl ConfigFilterAccountsFilter {
    /// A memcmp filter from decoded data: refused when the data is larger
    /// than `MAX_DATA_SIZE`.
    pub fn memcmp_from_data(offset: u64, data: Vec<u8>) -> (r: Result<ConfigFilterAccountsFilter, ConfigFilterError>)
        requires
            offset <= usize::MAX,
        ensures
            data@.len() > MAX_DATA_SIZE ==> (r matches Err(ConfigFilterError::Limits(ConfigLimitsError::FilterDataOverflow))),
            data@.len() <= MAX_DATA_SIZE ==> (r matches Ok(ConfigFilterAccountsFilter::Memcmp { offset: o, data: d })
                && o == offset && d@ == data@),
    {
        if data.len() > MAX_DATA_SIZE {
            return Err(ConfigFilterError::Limits(ConfigLimitsError::FilterDataOverflow));
        }
        Ok(ConfigFilterAccountsFilter::Memcmp { offset: to_usize(offset), data })
    }

    /// Converts an account data filter of a request.
    pub fn try_from_request(value: &SubscribeRequestFilterAccountsFilter) -> (r: Result<ConfigFilterAccountsFilter, ConfigFilterError>)
        requires
            value.filter matches Some(AccountsFilterData::Memcmp(m)) ==> m.offset <= usize::MAX,
        ensures
            match accounts_filter_from_request(*value) {
                Ok(c) => r matches Ok(f) && matches_conversion(f, c),
                Err(e) => r == Err::<ConfigFilterAccountsFilter, ConfigFilterError>(e),
            },
    {
        match &value.filter {
            None => Err(ConfigFilterError::FieldNotDefined(RequiredField::Filter)),
            Some(AccountsFilterData::Memcmp(m)) => {
                let d = match &m.data {
                    None => {
                        return Err(ConfigFilterError::FieldNotDefined(RequiredField::Data));
                    },
                    Some(d) => d,
                };
                let bytes = match decode_memcmp_data(d) {
                    Ok(b) => b,
                    Err(e) => {
                        return Err(e);
                    },
                };
                Self::memcmp_from_data(m.offset, bytes)
            },
            Some(AccountsFilterData::Datasize(n)) => Ok(ConfigFilterAccountsFilter::DataSize(*n)),
            Some(AccountsFilterData::TokenAccountState(b)) => {
                if !*b {
                    return Err(ConfigFilterError::TokenAccountStateInvalid);
                }
                Ok(ConfigFilterAccountsFilter::TokenAccountState)
            },
            Some(AccountsFilterData::Lamports(l)) => {
                match ConfigFilterAccountsFilterLamports::try_from_request(*l) {
                    Ok(c) => Ok(ConfigFilterAccountsFilter::Lamports(c)),
                    Err(e) => Err(e),
                }
            },
        }
    }
}


/// The keys a list of texts parses to, or the first text that is no key
/// with the reason.
pub open spec fn keys_parsed(ss: Seq<String>) -> Result<Seq<Seq<u8>>, (Seq<char>, PubkeyError)>
    decreases ss.len(),
{
    if ss.len() == 0 {
        Ok(Seq::empty())
    } else {
        match pubkey_parsed(ss[0]@) {
            Err(e) => Err((ss[0]@, e)),
            Ok(k) => match keys_parsed(ss.drop_first()) {
                Err(x) => Err(x),
                Ok(ks) => Ok(seq![k] + ks),
            },
        }
    }
}

/// The bytes of each key.
pub open spec fn key_bytes(ks: Seq<Pubkey>) -> Seq<Seq<u8>> {
    ks.map_values(|k: Pubkey| k.0@)
}

/// The keys parsed so far put in front of what the rest parses to.
pub open spec fn prepend_keys(done: Seq<Seq<u8>>, rest: Result<Seq<Seq<u8>>, (Seq<char>, PubkeyError)>) -> Result<Seq<Seq<u8>>, (Seq<char>, PubkeyError)> {
    match rest {
        Ok(ks) => Ok(done + ks),
        Err(x) => Err(x),
    }
}

/// Whether a conversion of keys gave what `keys_parsed` says.
pub open spec fn keys_result(ss: Seq<String>, r: Result<Vec<Pubkey>, ConfigFilterError>) -> bool {
    match keys_parsed(ss) {
        Ok(ks) => r matches Ok(v) && key_bytes(v@) == ks,
        Err((text, e)) => r matches Err(ConfigFilterError::Pubkey(t, f)) && t@ == text && f == e,
    }
}

/// `r` is the failure of a key text that `x` reports.
pub open spec fn is_key_error<T>(x: Result<Seq<Seq<u8>>, (Seq<char>, PubkeyError)>, r: Result<T, ConfigFilterError>) -> bool {
    match x {
        Err((text, e)) => r matches Err(ConfigFilterError::Pubkey(t, f)) && t@ == text && f == e,
        Ok(_) => true,
    }
}

/// Parses every text as a public key; the first that is none fails.
pub fn parse_vec_pubkeys(pubkeys: &Vec<String>) -> (r: Result<Vec<Pubkey>, ConfigFilterError>)
    ensures
        keys_result(pubkeys@, r),
{
    let mut out: Vec<Pubkey> = Vec::new();
    let mut i: usize = 0;
    assert(pubkeys@.skip(0) =~= pubkeys@);
    assert(key_bytes(out@) + Seq::<Seq<u8>>::empty() =~= key_bytes(out@));
    while i < pubkeys.len()
        invariant
            i <= pubkeys@.len(),
            keys_parsed(pubkeys@) == prepend_keys(key_bytes(out@), keys_parsed(pubkeys@.skip(i as int))),
        decreases pubkeys@.len() - i,
    {
        proof {
            assert(pubkeys@.skip(i as int).drop_first() =~= pubkeys@.skip(i + 1));
            assert(pubkeys@.skip(i as int)[0] == pubkeys@[i as int]);
        }
        match parse_pubkey(pubkeys[i].as_str()) {
            Ok(k) => {
                let ghost before = out@;
                out.push(k);
                proof {
                    assert(key_bytes(out@) =~= key_bytes(before).push(k.0@));
                    match keys_parsed(pubkeys@.skip(i + 1)) {
                        Ok(ks) => {
                            assert(key_bytes(before) + (seq![k.0@] + ks) =~= key_bytes(out@) + ks);
                        },
                        Err(_) => {},
                    }
                }
            },
            Err(e) => {
                return Err(ConfigFilterError::Pubkey(pubkeys[i].clone(), e));
            },
        }
        i = i + 1;
    }
    proof {
        assert(pubkeys@.skip(i as int) =~= Seq::<String>::empty());
        assert(key_bytes(out@) + Seq::<Seq<u8>>::empty() =~= key_bytes(out@));
    }
    Ok(out)
}

/// An accounts filter of a request.
#[derive(Debug, Clone)]
pub struct SubscribeRequestFilterAccounts {
    pub account: Vec<String>,
    pub owner: Vec<String>,
    pub filters: Vec<SubscribeRequestFilterAccountsFilter>,
    pub nonempty_txn_signature: Option<bool>,
}

/// The first data filter of a request that cannot be converted.
pub open spec fn first_filter_conversion_error(fs: Seq<SubscribeRequestFilterAccountsFilter>) -> Option<ConfigFilterError>
    decreases fs.len(),
{
    if fs.len() == 0 {
        None
    } else {
        match accounts_filter_from_request(fs[0]) {
            Err(e) => Some(e),
            Ok(_) => first_filter_conversion_error(fs.drop_first()),
        }
    }
}

/// Memcmp offsets of a request fit a machine word.
pub open spec fn offsets_fit(fs: Seq<SubscribeRequestFilterAccountsFilter>) -> bool {
    forall|i: int|
        0 <= i < fs.len() ==> ((#[trigger] fs[i]).filter matches Some(AccountsFilterData::Memcmp(m)) ==> m.offset
            <= usize::MAX)
}

/// What converting an accounts filter of a request gives (see
/// `ConfigFilterAccounts::try_from_request`).
pub open spec fn accounts_conversion(x: SubscribeRequestFilterAccounts, r: Result<ConfigFilterAccounts, ConfigFilterError>) -> bool {
    &&& (keys_parsed(x.account@) is Err ==> is_key_error(keys_parsed(x.account@), r))
    &&& (keys_parsed(x.account@) is Ok && keys_parsed(x.owner@) is Err ==> is_key_error(keys_parsed(x.owner@), r))
    &&& (keys_parsed(x.account@) is Ok && keys_parsed(x.owner@) is Ok ==> {
        if x.filters@.len() > MAX_FILTERS {
            r matches Err(ConfigFilterError::Limits(ConfigLimitsError::TooMuchFilters { max }))
                && max == MAX_FILTERS
        } else if first_filter_conversion_error(x.filters@) is Some {
            r matches Err(e) && e == first_filter_conversion_error(x.filters@)->0
        } else {
            &&& r is Ok
            &&& keys_result(x.account@, Ok(r->Ok_0.account))
            &&& keys_result(x.owner@, Ok(r->Ok_0.owner))
            &&& r->Ok_0.filters@.len() == x.filters@.len()
            &&& forall|i: int|
                0 <= i < x.filters@.len() ==> matches_conversion(
                    #[trigger] r->Ok_0.filters@[i],
                    accounts_filter_from_request(x.filters@[i])->Ok_0,
                )
            &&& r->Ok_0.nonempty_txn_signature == x.nonempty_txn_signature
        }
    })
}

/// Whether converting an accounts filter of a request fails.
pub open spec fn accounts_request_fails(x: SubscribeRequestFilterAccounts) -> bool {
    keys_parsed(x.account@) is Err || keys_parsed(x.owner@) is Err || x.filters@.len() > MAX_FILTERS
        || first_filter_conversion_error(x.filters@) is Some
}

impl ConfigFilterAccounts {
    /// Converts an accounts filter of a request: the account keys, then the
    /// owner keys, then the number of data filters, then each data filter.
    pub fn try_from_request(value: &SubscribeRequestFilterAccounts) -> (r: Result<ConfigFilterAccounts, ConfigFilterError>)
        requires
            offsets_fit(value.filters@),
        ensures
            accounts_conversion(*value, r),
            r is Err <==> accounts_request_fails(*value),
    {
        let account = match parse_vec_pubkeys(&value.account) {
            Ok(a) => a,
            Err(e) => {
                return Err(e);
            },
        };
        let owner = match parse_vec_pubkeys(&value.owner) {
            Ok(o) => o,
            Err(e) => {
                return Err(e);
            },
        };
        if value.filters.len() > MAX_FILTERS {
            return Err(ConfigFilterError::Limits(ConfigLimitsError::TooMuchFilters { max: MAX_FILTERS }));
        }
        let mut filters: Vec<ConfigFilterAccountsFilter> = Vec::new();
        let mut i: usize = 0;
        assert(value.filters@.skip(0) =~= value.filters@);
        while i < value.filters.len()
            invariant
                i <= value.filters@.len(),
                offsets_fit(value.filters@),
                filters@.len() == i,
                value.filters@.len() <= MAX_FILTERS,
                keys_parsed(value.account@) is Ok,
                keys_parsed(value.owner@) is Ok,
                keys_result(value.account@, Ok::<Vec<Pubkey>, ConfigFilterError>(account)),
                keys_result(value.owner@, Ok::<Vec<Pubkey>, ConfigFilterError>(owner)),
                forall|j: int| 0 <= j < i ==> accounts_filter_from_request(#[trigger] value.filters@[j]) is Ok,
                forall|j: int|
                    0 <= j < i ==> matches_conversion(
                        #[trigger] filters@[j],
                        accounts_filter_from_request(value.filters@[j])->Ok_0,
                    ),
                first_filter_conversion_error(value.filters@.skip(i as int)) == first_filter_conversion_error(
                    value.filters@,
                ),
            decreases value.filters@.len() - i,
        {
            proof {
                assert(value.filters@.skip(i as int).drop_first() =~= value.filters@.skip(i + 1));
                assert(value.filters@.skip(i as int)[0] == value.filters@[i as int]);
            }
            let f = match ConfigFilterAccountsFilter::try_from_request(&value.filters[i]) {
                Ok(f) => f,
                Err(e) => {
                    return Err(e);
                },
            };
            filters.push(f);
            i = i + 1;
        }
        Ok(ConfigFilterAccounts { account, owner, filters, nonempty_txn_signature: value.nonempty_txn_signature })
    }
}


/// A transactions filter of a request.
#[derive(Debug, Clone)]
pub struct SubscribeRequestFilterTransactions {
    pub vote: Option<bool>,
    pub failed: Option<bool>,
    pub signature: Option<String>,
    pub account_include: Vec<String>,
    pub account_exclude: Vec<String>,
    pub account_required: Vec<String>,
}

/// A blocks filter of a request.
#[derive(Debug, Clone)]
pub struct SubscribeRequestFilterBlocks {
    pub account_include: Vec<String>,
    pub include_transactions: Option<bool>,
    pub include_accounts: Option<bool>,
    pub include_entries: Option<bool>,
}

/// What converting a transactions filter of a request gives (see
/// `ConfigFilterTransactions::try_from_request`).
pub open spec fn transactions_conversion(x: SubscribeRequestFilterTransactions, r: Result<ConfigFilterTransactions, ConfigFilterError>) -> bool {
    match x.signature {
        Some(t) if signature_parsed(t@) is Err => r matches Err(ConfigFilterError::Signature(u, e))
            && u@ == t@ && signature_parsed(t@) == Err::<Seq<u8>, SignatureError>(e),
        _ => if keys_parsed(x.account_include@) is Err {
            is_key_error(keys_parsed(x.account_include@), r)
        } else if keys_parsed(x.account_exclude@) is Err {
            is_key_error(keys_parsed(x.account_exclude@), r)
        } else if keys_parsed(x.account_required@) is Err {
            is_key_error(keys_parsed(x.account_required@), r)
        } else {
            &&& r is Ok
            &&& r->Ok_0.vote == x.vote
            &&& r->Ok_0.failed == x.failed
            &&& match x.signature {
                Some(t) => r->Ok_0.signature matches Some(s) && signature_parsed(t@) == Ok::<
                    Seq<u8>,
                    SignatureError,
                >(s.0@),
                None => r->Ok_0.signature is None,
            }
            &&& keys_result(x.account_include@, Ok(r->Ok_0.account_include))
            &&& keys_result(x.account_exclude@, Ok(r->Ok_0.account_exclude))
            &&& keys_result(x.account_required@, Ok(r->Ok_0.account_required))
        },
    }
}

/// Whether converting a transactions filter of a request fails.
pub open spec fn transactions_request_fails(x: SubscribeRequestFilterTransactions) -> bool {
    (x.signature matches Some(t) && signature_parsed(t@) is Err) || keys_parsed(x.account_include@) is Err
        || keys_parsed(x.account_exclude@) is Err || keys_parsed(x.account_required@) is Err
}

impl ConfigFilterTransactions {
    /// Converts a transactions filter of a request: the signature, then the
    /// included, excluded and required keys, the first failure winning.
    pub fn try_from_request(value: &SubscribeRequestFilterTransactions) -> (r: Result<ConfigFilterTransactions, ConfigFilterError>)
        ensures
            transactions_conversion(*value, r),
            r is Err <==> transactions_request_fails(*value),
    {
        let signature = match &value.signature {
            Some(t) => match parse_signature(t.as_str()) {
                Ok(s) => Some(s),
                Err(e) => {
                    return Err(ConfigFilterError::Signature(t.clone(), e));
                },
            },
            None => None,
        };
        let account_include = match parse_vec_pubkeys(&value.account_include) {
            Ok(a) => a,
            Err(e) => {
                return Err(e);
            },
        };
        let account_exclude = match parse_vec_pubkeys(&value.account_exclude) {
            Ok(a) => a,
            Err(e) => {
                return Err(e);
            },
        };
        let account_required = match parse_vec_pubkeys(&value.account_required) {
            Ok(a) => a,
            Err(e) => {
                return Err(e);
            },
        };
        Ok(ConfigFilterTransactions {
            vote: value.vote,
            failed: value.failed,
            signature,
            account_include,
            account_exclude,
            account_required,
        })
    }
}

/// What converting a blocks filter of a request gives (see
/// `ConfigFilterBlocks::try_from_request`).
pub open spec fn blocks_conversion(x: SubscribeRequestFilterBlocks, r: Result<ConfigFilterBlocks, ConfigFilterError>) -> bool {
    &&& (keys_parsed(x.account_include@) is Err ==> is_key_error(keys_parsed(x.account_include@), r))
    &&& (keys_parsed(x.account_include@) is Ok ==> {
        &&& r is Ok
        &&& keys_result(x.account_include@, Ok(r->Ok_0.account_include))
        &&& r->Ok_0.include_transactions == x.include_transactions
        &&& r->Ok_0.include_accounts == x.include_accounts
        &&& r->Ok_0.include_entries == x.include_entries
    })
}

/// Whether converting a blocks filter of a request fails.
pub open spec fn blocks_request_fails(x: SubscribeRequestFilterBlocks) -> bool {
    keys_parsed(x.account_include@) is Err
}

impl ConfigFilterBlocks {
    /// Converts a blocks filter of a request.
    pub fn try_from_request(value: &SubscribeRequestFilterBlocks) -> (r: Result<ConfigFilterBlocks, ConfigFilterError>)
        ensures
            blocks_conversion(*value, r),
            r is Err <==> blocks_request_fails(*value),
    {
        let account_include = match parse_vec_pubkeys(&value.account_include) {
            Ok(a) => a,
            Err(e) => {
                return Err(e);
            },
        };
        Ok(ConfigFilterBlocks {
            account_include,
            include_transactions: value.include_transactions,
            include_accounts: value.include_accounts,
            include_entries: value.include_entries,
        })
    }
}

/// The commitment level a request's number names, if any: processed 0,
/// confirmed 1, finalized 2, first shred received 3, completed 4, created
/// bank 5, dead 6.
pub open spec fn commitment_level_of(value: i32) -> Option<CommitmentLevelProto> {
    if value == 0 {
        Some(CommitmentLevelProto::Processed)
    } else if value == 1 {
        Some(CommitmentLevelProto::Confirmed)
    } else if value == 2 {
        Some(CommitmentLevelProto::Finalized)
    } else if value == 3 {
        Some(CommitmentLevelProto::FirstShredReceived)
    } else if value == 4 {
        Some(CommitmentLevelProto::Completed)
    } else if value == 5 {
        Some(CommitmentLevelProto::CreatedBank)
    } else if value == 6 {
        Some(CommitmentLevelProto::Dead)
    } else {
        None
    }
}

impl CommitmentLevelProto {
    /// The level a number names.
    pub fn from_i32(value: i32) -> (r: Option<CommitmentLevelProto>)
        ensures
            r == commitment_level_of(value),
    {
        if value == 0 {
            Some(CommitmentLevelProto::Processed)
        } else if value == 1 {
            Some(CommitmentLevelProto::Confirmed)
        } else if value == 2 {
            Some(CommitmentLevelProto::Finalized)
        } else if value == 3 {
            Some(CommitmentLevelProto::FirstShredReceived)
        } else if value == 4 {
            Some(CommitmentLevelProto::Completed)
        } else if value == 5 {
            Some(CommitmentLevelProto::CreatedBank)
        } else if value == 6 {
            Some(CommitmentLevelProto::Dead)
        } else {
            None
        }
    }
}

/// The number of a commitment: processed 0, confirmed 1, finalized 2.
pub open spec fn commitment_number(c: ConfigFilterCommitment) -> i32 {
    match c {
        ConfigFilterCommitment::Processed => 0,
        ConfigFilterCommitment::Confirmed => 1,
        ConfigFilterCommitment::Finalized => 2,
    }
}

impl ConfigFilterCommitment {
    /// The commitment of a level: only processed, confirmed and finalized
    /// are supported.
    pub fn try_from_level(value: CommitmentLevelProto) -> (r: Result<ConfigFilterCommitment, ConfigFilterError>)
        ensures
            match value {
                CommitmentLevelProto::Processed => r == Ok::<ConfigFilterCommitment, ConfigFilterError>(ConfigFilterCommitment::Processed),
                CommitmentLevelProto::Confirmed => r == Ok::<ConfigFilterCommitment, ConfigFilterError>(ConfigFilterCommitment::Confirmed),
                CommitmentLevelProto::Finalized => r == Ok::<ConfigFilterCommitment, ConfigFilterError>(ConfigFilterCommitment::Finalized),
                _ => r == Err::<ConfigFilterCommitment, ConfigFilterError>(ConfigFilterError::InvalidCommitment(value)),
            },
    {
        match value {
            CommitmentLevelProto::Processed => Ok(ConfigFilterCommitment::Processed),
            CommitmentLevelProto::Confirmed => Ok(ConfigFilterCommitment::Confirmed),
            CommitmentLevelProto::Finalized => Ok(ConfigFilterCommitment::Finalized),
            _ => Err(ConfigFilterError::InvalidCommitment(value)),
        }
    }

    /// The commitment a request's number names: unknown numbers and levels
    /// other than processed, confirmed and finalized are refused.
    pub fn try_from_i32(value: i32) -> (r: Result<ConfigFilterCommitment, ConfigFilterError>)
        ensures
            match commitment_level_of(value) {
                None => r == Err::<ConfigFilterCommitment, ConfigFilterError>(ConfigFilterError::UnknownCommitment(value)),
                Some(CommitmentLevelProto::Processed) => r == Ok::<ConfigFilterCommitment, ConfigFilterError>(ConfigFilterCommitment::Processed),
                Some(CommitmentLevelProto::Confirmed) => r == Ok::<ConfigFilterCommitment, ConfigFilterError>(ConfigFilterCommitment::Confirmed),
                Some(CommitmentLevelProto::Finalized) => r == Ok::<ConfigFilterCommitment, ConfigFilterError>(ConfigFilterCommitment::Finalized),
                Some(l) => r == Err::<ConfigFilterCommitment, ConfigFilterError>(ConfigFilterError::InvalidCommitment(l)),
            },
    {
        match CommitmentLevelProto::from_i32(value) {
            None => Err(ConfigFilterError::UnknownCommitment(value)),
            Some(level) => Self::try_from_level(level),
        }
    }

    /// The number of the commitment.
    pub fn to_i32(self) -> (n: i32)
        ensures
            n == commitment_number(self),
    {
        match self {
            ConfigFilterCommitment::Processed => 0,
            ConfigFilterCommitment::Confirmed => 1,
            ConfigFilterCommitment::Finalized => 2,
        }
    }
}

/// A commitment's number names it again.
pub proof fn lemma_commitment_round_trip(c: ConfigFilterCommitment)
    ensures
        commitment_level_of(commitment_number(c)) matches Some(l) && match c {
            ConfigFilterCommitment::Processed => l == CommitmentLevelProto::Processed,
            ConfigFilterCommitment::Confirmed => l == CommitmentLevelProto::Confirmed,
            ConfigFilterCommitment::Finalized => l == CommitmentLevelProto::Finalized,
        },
{
}

/// Memcmp data written as text in a configuration file: the text's bytes.
/// The first seven bytes are compared with the six-letter prefixes `base64`
/// and `base58`, which never match, so the text is always taken as it is;
/// the text must have a character boundary after its seventh byte.
pub fn filter_data_from_text(data: &str) -> (r: Vec<u8>)
    requires
        vstd::utf8::encode_utf8(data@).len() >= 7,
        vstd::utf8::is_char_boundary(vstd::utf8::encode_utf8(data@), 7),
    ensures
        r@ == vstd::utf8::encode_utf8(data@),
{
    let b = data.as_bytes();
    let mut v: Vec<u8> = Vec::new();
    let mut i: usize = 0;
    while i < b.len()
        invariant
            i <= b@.len(),
            v@ == b@.subrange(0, i as int),
        decreases b@.len() - i,
    {
        v.push(b[i]);
        proof {
            assert(b@.subrange(0, i + 1) =~= b@.subrange(0, i as int).push(b@[i as int]));
        }
        i = i + 1;
    }
    proof {
        assert(b@.subrange(0, b@.len() as int) =~= b@);
    }
    v
}


impl Default for ConfigLimitsSlots {
    /// No limit on the number of slots filters.
    fn default() -> (r: Self)
        ensures
            r.max == usize::MAX,
    {
        ConfigLimitsSlots { max: usize::MAX }
    }
}

impl Default for ConfigLimitsEntries {
    /// No limit on the number of entries filters.
    fn default() -> (r: Self)
        ensures
            r.max == usize::MAX,
    {
        ConfigLimitsEntries { max: usize::MAX }
    }
}

impl Default for ConfigLimitsBlocksMeta {
    /// No limit on the number of block-meta filters.
    fn default() -> (r: Self)
        ensures
            r.max == usize::MAX,
    {
        ConfigLimitsBlocksMeta { max: usize::MAX }
    }
}

/// The default limits of accounts filters: nothing limited, nothing
/// refused, filters without keys allowed.
pub open spec fn default_accounts_limits(l: ConfigLimitsAccounts) -> bool {
    &&& l.max == usize::MAX
    &&& l.any
    &&& l.account_max == usize::MAX
    &&& l.account_reject@.len() == 0
    &&& l.owner_max == usize::MAX
    &&& l.owner_reject@.len() == 0
    &&& l.data_slice_max == usize::MAX
}

impl Default for ConfigLimitsAccounts {
    /// Nothing limited, nothing refused, filters without keys allowed.
    fn default() -> (r: Self)
        ensures
            default_accounts_limits(r),
    {
        ConfigLimitsAccounts {
            max: usize::MAX,
            any: true,
            account_max: usize::MAX,
            account_reject: Vec::new(),
            owner_max: usize::MAX,
            owner_reject: Vec::new(),
            data_slice_max: usize::MAX,
        }
    }
}

impl Default for ConfigLimitsTransactions {
    /// Nothing limited, nothing refused, filters without conditions allowed.
    fn default() -> (r: Self)
        ensures
            r.max == usize::MAX,
            r.any,
            r.account_include_max == usize::MAX,
            r.account_include_reject@.len() == 0,
            r.account_exclude_max == usize::MAX,
            r.account_required_max == usize::MAX,
    {
        ConfigLimitsTransactions {
            max: usize::MAX,
            any: true,
            account_include_max: usize::MAX,
            account_include_reject: Vec::new(),
            account_exclude_max: usize::MAX,
            account_required_max: usize::MAX,
        }
    }
}

impl Default for ConfigLimitsBlocks {
    /// Nothing limited, nothing refused, everything may be included.
    fn default() -> (r: Self)
        ensures
            r.max == usize::MAX,
            r.account_include_max == usize::MAX,
            r.account_include_any,
            r.account_include_reject@.len() == 0,
            r.include_transactions,
            r.include_accounts,
            r.include_entries,
    {
        ConfigLimitsBlocks {
            max: usize::MAX,
            account_include_max: usize::MAX,
            account_include_any: true,
            account_include_reject: Vec::new(),
            include_transactions: true,
            include_accounts: true,
            include_entries: true,
        }
    }
}

impl Default for ConfigLimits {
    /// Names up to 128 bytes and the default limits of every kind.
    fn default() -> (r: Self)
        ensures
            r.name_max == 128,
            r.slots.max == usize::MAX,
            default_accounts_limits(r.accounts),
            r.transactions.max == usize::MAX,
            r.transactions.any,
            r.transactions_status.max == usize::MAX,
            r.transactions_status.any,
            r.entries.max == usize::MAX,
            r.blocks_meta.max == usize::MAX,
            r.blocks.max == usize::MAX,
            r.blocks.include_transactions,
    {
        ConfigLimits {
            name_max: 128,
            slots: ConfigLimitsSlots::default(),
            accounts: ConfigLimitsAccounts::default(),
            transactions: ConfigLimitsTransactions::default(),
            transactions_status: ConfigLimitsTransactions::default(),
            entries: ConfigLimitsEntries::default(),
            blocks_meta: ConfigLimitsBlocksMeta::default(),
            blocks: ConfigLimitsBlocks::default(),
        }
    }
}

impl Default for ConfigFilterCommitment {
    /// Processed.
    fn default() -> (r: Self)
        ensures
            r == ConfigFilterCommitment::Processed,
    {
        ConfigFilterCommitment::Processed
    }
}

impl Default for ConfigFilterSlots {
    /// No commitment filtering asked.
    fn default() -> (r: Self)
        ensures
            r.filter_by_commitment is None,
    {
        ConfigFilterSlots { filter_by_commitment: None }
    }
}

/// Nothing is refused by an empty set.
proof fn lemma_no_rejected(keys: Seq<Pubkey>, reject: Seq<Pubkey>)
    requires
        reject.len() == 0,
    ensures
        first_rejected(keys, reject) is None,
    decreases keys.len(),
{
    if keys.len() > 0 {
        lemma_no_rejected(keys.drop_first(), reject);
    }
}

/// Under the default limits an accounts filter is refused only for having
/// more than `MAX_FILTERS` data filters, memcmp data over `MAX_DATA_SIZE`,
/// or two data-size filters.
pub proof fn lemma_default_accounts_limits(l: ConfigLimitsAccounts, f: ConfigFilterAccounts)
    requires
        default_accounts_limits(l),
    ensures
        accounts_filter_error(l, f) == (if f.filters@.len() > MAX_FILTERS {
            Some(ConfigLimitsError::TooMuchFilters { max: MAX_FILTERS })
        } else {
            data_filters_error(f.filters@, false)
        }),
{
    lemma_no_rejected(f.account@, l.account_reject@);
    lemma_no_rejected(f.owner@, l.owner_reject@);
    assert(f.account@.len() == f.account.len());
    assert(f.owner@.len() == f.owner.len());
}

/// Limits only refuse: a filter accepted under some limits for one kind is
/// accepted by the shared checks under any looser name and count limits.
pub proof fn lemma_names_and_count_monotone(names: Seq<String>, name_max: usize, max: usize, name_max2: usize, max2: usize)
    requires
        names_and_count(names, name_max, max) is Ok,
        name_max <= name_max2,
        max <= max2,
    ensures
        names_and_count(names, name_max2, max2) is Ok,
{
    if some_name_over(names, name_max2) {
        let i = choose|i: int| 0 <= i < names.len() && name_bytes(#[trigger] names[i]) > name_max2;
        assert(name_bytes(names[i]) > name_max);
    }
}

/// A key list with no rejected key has none of its keys in the reject list.
proof fn lemma_none_rejected(keys: Seq<Pubkey>, reject: Seq<Pubkey>)
    requires
        first_rejected(keys, reject) is None,
    ensures
        forall|j: int| 0 <= j < keys.len() ==> !key_in(reject, #[trigger] keys[j]),
    decreases keys.len(),
{
    if keys.len() > 0 {
        lemma_none_rejected(keys.drop_first(), reject);
        assert forall|j: int| 0 <= j < keys.len() implies !key_in(reject, #[trigger] keys[j]) by {
            if j > 0 {
                assert(keys[j] == keys.drop_first()[j - 1]);
            }
        }
    }
}

/// No accounts filter of a list has a problem when the first problem is none.
proof fn lemma_no_accounts_error(l: ConfigLimitsAccounts, fs: Seq<(String, ConfigFilterAccounts)>)
    requires
        first_accounts_error(l, fs) is None,
    ensures
        forall|i: int| 0 <= i < fs.len() ==> accounts_filter_error(l, (#[trigger] fs[i]).1) is None,
    decreases fs.len(),
{
    if fs.len() > 0 {
        lemma_no_accounts_error(l, fs.drop_first());
        assert forall|i: int| 0 <= i < fs.len() implies accounts_filter_error(l, (#[trigger] fs[i]).1) is None by {
            if i > 0 {
                assert(fs[i] == fs.drop_first()[i - 1]);
            }
        }
    }
}

/// Accounts filters accepted under limits `l` keep to them: at most
/// `l.max` filters; in each, at most `l.account_max` account keys and at
/// most `l.owner_max` owner keys, none of them rejected, at least one key
/// unless any filter is allowed, and at most `MAX_FILTERS` data filters;
/// and at most `l.data_slice_max` data slices.
pub proof fn lemma_accepted_accounts_within_limits(
    l: ConfigLimitsAccounts,
    name_max: usize,
    fs: Seq<(String, ConfigFilterAccounts)>,
    ds: Seq<ConfigFilterAccountsDataSlice>,
)
    requires
        accounts_check(l, name_max, fs, ds) is Ok,
    ensures
        fs.len() <= l.max,
        forall|i: int| 0 <= i < fs.len() ==> name_bytes((#[trigger] fs[i]).0) <= name_max,
        ds.len() <= l.data_slice_max,
        forall|i: int|
            0 <= i < fs.len() ==> {
                let f = (#[trigger] fs[i]).1;
                &&& f.account@.len() <= l.account_max
                &&& f.owner@.len() <= l.owner_max
                &&& (f.account@.len() == 0 && f.owner@.len() == 0 ==> l.any)
                &&& forall|j: int| 0 <= j < f.account@.len() ==> !key_in(l.account_reject@, #[trigger] f.account@[j])
                &&& forall|j: int| 0 <= j < f.owner@.len() ==> !key_in(l.owner_reject@, #[trigger] f.owner@[j])
                &&& f.filters@.len() <= MAX_FILTERS
            },
{
    let names = fs.map_values(|f: (String, ConfigFilterAccounts)| f.0);
    assert(names.len() == fs.len());
    assert forall|i: int| 0 <= i < fs.len() implies name_bytes((#[trigger] fs[i]).0) <= name_max by {
        assert(names[i] == fs[i].0);
    }
    lemma_no_accounts_error(l, fs);
    assert forall|i: int| 0 <= i < fs.len() implies {
        let f = (#[trigger] fs[i]).1;
        &&& f.account@.len() <= l.account_max
        &&& f.owner@.len() <= l.owner_max
        &&& (f.account@.len() == 0 && f.owner@.len() == 0 ==> l.any)
        &&& forall|j: int| 0 <= j < f.account@.len() ==> !key_in(l.account_reject@, #[trigger] f.account@[j])
        &&& forall|j: int| 0 <= j < f.owner@.len() ==> !key_in(l.owner_reject@, #[trigger] f.owner@[j])
        &&& f.filters@.len() <= MAX_FILTERS
    } by {
        let f = fs[i].1;
        assert(accounts_filter_error(l, f) is None);
        lemma_none_rejected(f.account@, l.account_reject@);
        lemma_none_rejected(f.owner@, l.owner_reject@);
    }
}

/// Filters accepted under all the limits pass the check of each kind (see
/// `lemma_accepted_accounts_within_limits`,
/// `lemma_accepted_transactions_within_limits` and
/// `lemma_accepted_blocks_within_limits` for what those say), and the
/// slots, entries and block-meta filters are within their counts.
pub proof fn lemma_accepted_filter_accounts(l: ConfigLimits, f: ConfigFilter)
    requires
        limits_check(l, f) is Ok,
    ensures
        accounts_check(l.accounts, l.name_max, f.accounts@, f.accounts_data_slice@) is Ok,
        transactions_check(l.transactions, l.name_max, f.transactions@) is Ok,
        transactions_check(l.transactions_status, l.name_max, f.transactions_status@) is Ok,
        blocks_check(l.blocks, l.name_max, f.blocks@) is Ok,
        f.slots@.len() <= l.slots.max,
        f.entries@.len() <= l.entries.max,
        f.blocks_meta@.len() <= l.blocks_meta.max,
{
    assert(f.slots@.map_values(|x: (String, ConfigFilterSlots)| x.0).len() == f.slots@.len());
}

/// No transactions filter of a list has a problem when the first problem
/// is none.
proof fn lemma_no_transactions_error(l: ConfigLimitsTransactions, fs: Seq<(String, ConfigFilterTransactions)>)
    requires
        first_transactions_error(l, fs) is None,
    ensures
        forall|i: int| 0 <= i < fs.len() ==> transactions_filter_error(l, (#[trigger] fs[i]).1) is None,
    decreases fs.len(),
{
    if fs.len() > 0 {
        lemma_no_transactions_error(l, fs.drop_first());
        assert forall|i: int| 0 <= i < fs.len() implies transactions_filter_error(l, (#[trigger] fs[i]).1) is None by {
            if i > 0 {
                assert(fs[i] == fs.drop_first()[i - 1]);
            }
        }
    }
}

/// Transactions filters accepted under limits `l` keep to them: at most
/// `l.max` filters, each name within `name_max` bytes; in each, at most
/// `l.account_include_max`, `l.account_exclude_max` and
/// `l.account_required_max` keys of each list, no included key rejected,
/// and something to match on unless any filter is allowed.
pub proof fn lemma_accepted_transactions_within_limits(
    l: ConfigLimitsTransactions,
    name_max: usize,
    fs: Seq<(String, ConfigFilterTransactions)>,
)
    requires
        transactions_check(l, name_max, fs) is Ok,
    ensures
        fs.len() <= l.max,
        forall|i: int| 0 <= i < fs.len() ==> name_bytes((#[trigger] fs[i]).0) <= name_max,
        forall|i: int|
            0 <= i < fs.len() ==> {
                let f = (#[trigger] fs[i]).1;
                &&& f.account_include@.len() <= l.account_include_max
                &&& f.account_exclude@.len() <= l.account_exclude_max
                &&& f.account_required@.len() <= l.account_required_max
                &&& forall|j: int|
                    0 <= j < f.account_include@.len() ==> !key_in(l.account_include_reject@, #[trigger] f.account_include@[j])
                &&& (f.vote is None && f.failed is None && f.account_include@.len() == 0 && f.account_exclude@.len() == 0
                    && f.account_required@.len() == 0 ==> l.any)
            },
{
    let names = fs.map_values(|f: (String, ConfigFilterTransactions)| f.0);
    assert forall|i: int| 0 <= i < fs.len() implies name_bytes((#[trigger] fs[i]).0) <= name_max by {
        assert(names[i] == fs[i].0);
    }
    lemma_no_transactions_error(l, fs);
    assert forall|i: int| 0 <= i < fs.len() implies {
        let f = (#[trigger] fs[i]).1;
        &&& f.account_include@.len() <= l.account_include_max
        &&& f.account_exclude@.len() <= l.account_exclude_max
        &&& f.account_required@.len() <= l.account_required_max
        &&& forall|j: int|
            0 <= j < f.account_include@.len() ==> !key_in(l.account_include_reject@, #[trigger] f.account_include@[j])
        &&& (f.vote is None && f.failed is None && f.account_include@.len() == 0 && f.account_exclude@.len() == 0
            && f.account_required@.len() == 0 ==> l.any)
    } by {
        let f = fs[i].1;
        assert(transactions_filter_error(l, f) is None);
        lemma_none_rejected(f.account_include@, l.account_include_reject@);
    }
}

/// No blocks filter of a list has a problem when the first problem is none.
proof fn lemma_no_blocks_error(l: ConfigLimitsBlocks, fs: Seq<(String, ConfigFilterBlocks)>)
    requires
        first_blocks_error(l, fs) is None,
    ensures
        forall|i: int| 0 <= i < fs.len() ==> blocks_filter_error(l, (#[trigger] fs[i]).1) is None,
    decreases fs.len(),
{
    if fs.len() > 0 {
        lemma_no_blocks_error(l, fs.drop_first());
        assert forall|i: int| 0 <= i < fs.len() implies blocks_filter_error(l, (#[trigger] fs[i]).1) is None by {
            if i > 0 {
                assert(fs[i] == fs.drop_first()[i - 1]);
            }
        }
    }
}

/// Blocks filters accepted under limits `l` keep to them: at most `l.max`
/// filters, each name within `name_max` bytes; in each, at most
/// `l.account_include_max` keys, none rejected, at least one unless any is
/// allowed; transactions (asked for unless set to `false`) only when
/// `l.include_transactions`, accounts only when `l.include_accounts`, and
/// entries only when `l.include_entries`.
pub proof fn lemma_accepted_blocks_within_limits(l: ConfigLimitsBlocks, name_max: usize, fs: Seq<(String, ConfigFilterBlocks)>)
    requires
        blocks_check(l, name_max, fs) is Ok,
    ensures
        fs.len() <= l.max,
        forall|i: int| 0 <= i < fs.len() ==> name_bytes((#[trigger] fs[i]).0) <= name_max,
        forall|i: int|
            0 <= i < fs.len() ==> {
                let f = (#[trigger] fs[i]).1;
                &&& f.account_include@.len() <= l.account_include_max
                &&& (f.account_include@.len() == 0 ==> l.account_include_any)
                &&& forall|j: int|
                    0 <= j < f.account_include@.len() ==> !key_in(l.account_include_reject@, #[trigger] f.account_include@[j])
                &&& (f.include_transactions != Some(false) ==> l.include_transactions)
                &&& (f.include_accounts == Some(true) ==> l.include_accounts)
                &&& (f.include_entries == Some(true) ==> l.include_entries)
            },
{
    let names = fs.map_values(|f: (String, ConfigFilterBlocks)| f.0);
    assert forall|i: int| 0 <= i < fs.len() implies name_bytes((#[trigger] fs[i]).0) <= name_max by {
        assert(names[i] == fs[i].0);
    }
    lemma_no_blocks_error(l, fs);
    assert forall|i: int| 0 <= i < fs.len() implies {
        let f = (#[trigger] fs[i]).1;
        &&& f.account_include@.len() <= l.account_include_max
        &&& (f.account_include@.len() == 0 ==> l.account_include_any)
        &&& forall|j: int|
            0 <= j < f.account_include@.len() ==> !key_in(l.account_include_reject@, #[trigger] f.account_include@[j])
        &&& (f.include_transactions != Some(false) ==> l.include_transactions)
        &&& (f.include_accounts == Some(true) ==> l.include_accounts)
        &&& (f.include_entries == Some(true) ==> l.include_entries)
    } by {
        let f = fs[i].1;
        assert(blocks_filter_error(l, f) is None);
        lemma_none_rejected(f.account_include@, l.account_include_reject@);
    }
}

} // verus!
