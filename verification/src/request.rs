//! A whole subscription request: converting its named filters into the
//! filters the server applies. Each kind of filter is converted in turn
//! (slots, accounts, data slices, transactions, transaction statuses,
//! entries, block metas, blocks, then the commitment); within a kind the
//! entries are taken in order and the first one that fails decides the
//! error. Filters also convert back into a request, keys and signatures
//! written as base58 text.
use vstd::prelude::*;
use crate::filter::{
    Pubkey, Signature, ConfigFilterAccountsFilter, SubscribeRequestFilterAccountsFilter, AccountsFilterData,
    SubscribeRequestFilterAccountsFilterMemcmp, SubscribeRequestFilterAccountsFilterLamports, MemcmpData,
    commitment_number, SubscribeRequestFilterAccounts, SubscribeRequestFilterTransactions, SubscribeRequestFilterBlocks,
    ConfigFilterAccounts, ConfigFilterTransactions, ConfigFilterBlocks, ConfigFilterSlots,
    ConfigFilterAccountsDataSlice, ConfigFilter, ConfigFilterCommitment, ConfigFilterError, CommitmentLevelProto,
    accounts_conversion, accounts_request_fails, transactions_conversion, transactions_request_fails,
    blocks_conversion, blocks_request_fails, offsets_fit, commitment_level_of, PubkeyError, SignatureError,
    pubkey_parsed, signature_parsed, keys_parsed, key_bytes, accounts_filter_from_request, matches_conversion,
    first_filter_conversion_error, MAX_FILTERS, MAX_DATA_SIZE, distinct_names, distinct_strings, parse_pubkey,
    parse_signature, key_view, signature_view,
};

verus! {

/// A slots filter of a request.
#[derive(Debug, Clone, Copy, PartialEq, Eq, Structural)]
pub struct SubscribeRequestFilterSlots {
    pub filter_by_commitment: Option<bool>,
}

/// The range of account data a request asks for.
#[derive(Debug, Clone, Copy, PartialEq, Eq, Structural)]
pub struct SubscribeRequestAccountsDataSlice {
    pub offset: u64,
    pub length: u64,
}

/// A subscription request: its filters, each kind named, the data slices,
/// the commitment by number, the slot to start from, and a ping's id.
#[derive(Debug, Clone)]
pub struct SubscribeRequest {
    pub slots: Vec<(String, SubscribeRequestFilterSlots)>,
    pub accounts: Vec<(String, SubscribeRequestFilterAccounts)>,
    pub transactions: Vec<(String, SubscribeRequestFilterTransactions)>,
    pub transactions_status: Vec<(String, SubscribeRequestFilterTransactions)>,
    pub entry: Vec<String>,
    pub blocks: Vec<(String, SubscribeRequestFilterBlocks)>,
    pub blocks_meta: Vec<String>,
    pub commitment: Option<i32>,
    pub accounts_data_slice: Vec<SubscribeRequestAccountsDataSlice>,
    pub from_slot: Option<u64>,
    pub ping: Option<i32>,
}

impl SubscribeRequest {
    /// Each kind of named filter is a map: its names are distinct.
    pub open spec fn names_distinct(&self) -> bool {
        &&& distinct_names(self.slots@)
        &&& distinct_names(self.accounts@)
        &&& distinct_names(self.transactions@)
        &&& distinct_names(self.transactions_status@)
        &&& distinct_strings(self.entry@)
        &&& distinct_strings(self.blocks_meta@)
        &&& distinct_names(self.blocks@)
    }
}

/// Two lists named one for one carry the same names, so one has distinct
/// names exactly when the other has.
proof fn lemma_same_names<A, B>(a: Seq<(String, A)>, b: Seq<(String, B)>)
    requires
        a.len() == b.len(),
        forall|j: int| 0 <= j < a.len() ==> (#[trigger] a[j]).0@ == b[j].0@,
    ensures
        distinct_names(a) <==> distinct_names(b),
{
    assert forall|i: int, j: int| 0 <= i < j < a.len() implies (b[i].0@ == b[j].0@ <==> a[i].0@ == a[j].0@) by {
        assert(a[i].0@ == b[i].0@);
        assert(a[j].0@ == b[j].0@);
    }
    if distinct_names(a) {
        assert forall|i: int, j: int| 0 <= i < j < b.len() implies (#[trigger] b[i]).0@ != (#[trigger] b[j]).0@ by {
            assert(a[i].0@ != a[j].0@);
        }
    }
    if distinct_names(b) {
        assert forall|i: int, j: int| 0 <= i < j < a.len() implies (#[trigger] a[i]).0@ != (#[trigger] a[j]).0@ by {
            assert(b[i].0@ != b[j].0@);
        }
    }
}

/// The same for plain name lists.
proof fn lemma_same_strings(a: Seq<String>, b: Seq<String>)
    requires
        names_converted(a, b),
    ensures
        distinct_strings(a) <==> distinct_strings(b),
{
    assert forall|i: int, j: int| 0 <= i < j < a.len() implies (b[i]@ == b[j]@ <==> a[i]@ == a[j]@) by {
        assert(b[i]@ == a[i]@);
        assert(b[j]@ == a[j]@);
    }
    if distinct_strings(a) {
        assert forall|i: int, j: int| 0 <= i < j < b.len() implies (#[trigger] b[i])@ != (#[trigger] b[j])@ by {
            assert(a[i]@ != a[j]@);
        }
    }
    if distinct_strings(b) {
        assert forall|i: int, j: int| 0 <= i < j < a.len() implies (#[trigger] a[i])@ != (#[trigger] a[j])@ by {
            assert(b[i]@ != b[j]@);
        }
    }
}

/// Whether some named accounts filter fails to convert.
pub open spec fn accounts_map_fails(xs: Seq<(String, SubscribeRequestFilterAccounts)>) -> bool {
    exists|i: int| 0 <= i < xs.len() && accounts_request_fails(#[trigger] xs[i].1)
}

/// `e` is the error of the first named accounts filter that fails.
pub open spec fn accounts_map_error(xs: Seq<(String, SubscribeRequestFilterAccounts)>, e: ConfigFilterError) -> bool {
    exists|i: int|
        #![trigger xs[i]]
        0 <= i < xs.len() && accounts_request_fails(xs[i].1) && (forall|j: int|
            0 <= j < i ==> !accounts_request_fails(#[trigger] xs[j].1)) && accounts_conversion(xs[i].1, Err(e))
}

/// Each named accounts filter converted, under its name.
pub open spec fn accounts_map_converted(
    xs: Seq<(String, SubscribeRequestFilterAccounts)>,
    v: Seq<(String, ConfigFilterAccounts)>,
) -> bool {
    &&& v.len() == xs.len()
    &&& forall|j: int|
        0 <= j < xs.len() ==> (#[trigger] v[j]).0@ == xs[j].0@ && accounts_conversion(xs[j].1, Ok(v[j].1))
}

/// Whether some named transactions filter fails to convert.
pub open spec fn transactions_map_fails(xs: Seq<(String, SubscribeRequestFilterTransactions)>) -> bool {
    exists|i: int| 0 <= i < xs.len() && transactions_request_fails(#[trigger] xs[i].1)
}

/// `e` is the error of the first named transactions filter that fails.
pub open spec fn transactions_map_error(xs: Seq<(String, SubscribeRequestFilterTransactions)>, e: ConfigFilterError) -> bool {
    exists|i: int|
        #![trigger xs[i]]
        0 <= i < xs.len() && transactions_request_fails(xs[i].1) && (forall|j: int|
            0 <= j < i ==> !transactions_request_fails(#[trigger] xs[j].1)) && transactions_conversion(
            xs[i].1,
            Err(e),
        )
}

/// Each named transactions filter converted, under its name.
pub open spec fn transactions_map_converted(
    xs: Seq<(String, SubscribeRequestFilterTransactions)>,
    v: Seq<(String, ConfigFilterTransactions)>,
) -> bool {
    &&& v.len() == xs.len()
    &&& forall|j: int|
        0 <= j < xs.len() ==> (#[trigger] v[j]).0@ == xs[j].0@ && transactions_conversion(xs[j].1, Ok(v[j].1))
}

/// Whether some named blocks filter fails to convert.
pub open spec fn blocks_map_fails(xs: Seq<(String, SubscribeRequestFilterBlocks)>) -> bool {
    exists|i: int| 0 <= i < xs.len() && blocks_request_fails(#[trigger] xs[i].1)
}

/// `e` is the error of the first named blocks filter that fails.
pub open spec fn blocks_map_error(xs: Seq<(String, SubscribeRequestFilterBlocks)>, e: ConfigFilterError) -> bool {
    exists|i: int|
        #![trigger xs[i]]
        0 <= i < xs.len() && blocks_request_fails(xs[i].1) && (forall|j: int|
            0 <= j < i ==> !blocks_request_fails(#[trigger] xs[j].1)) && blocks_conversion(xs[i].1, Err(e))
}

/// Each named blocks filter converted, under its name.
pub open spec fn blocks_map_converted(xs: Seq<(String, SubscribeRequestFilterBlocks)>, v: Seq<(String, ConfigFilterBlocks)>) -> bool {
    &&& v.len() == xs.len()
    &&& forall|j: int|
        0 <= j < xs.len() ==> (#[trigger] v[j]).0@ == xs[j].0@ && blocks_conversion(xs[j].1, Ok(v[j].1))
}

/// Each named slots filter carried over, under its name.
pub open spec fn slots_converted(xs: Seq<(String, SubscribeRequestFilterSlots)>, v: Seq<(String, ConfigFilterSlots)>) -> bool {
    &&& v.len() == xs.len()
    &&& forall|j: int|
        0 <= j < xs.len() ==> (#[trigger] v[j]).0@ == xs[j].0@ && v[j].1.filter_by_commitment
            == xs[j].1.filter_by_commitment
}

/// Each data slice carried over.
pub open spec fn data_slices_converted(
    xs: Seq<SubscribeRequestAccountsDataSlice>,
    v: Seq<ConfigFilterAccountsDataSlice>,
) -> bool {
    &&& v.len() == xs.len()
    &&& forall|j: int| 0 <= j < xs.len() ==> (#[trigger] v[j]).offset == xs[j].offset && v[j].length == xs[j].length
}

/// The same names.
pub open spec fn names_converted(xs: Seq<String>, v: Seq<String>) -> bool {
    &&& v.len() == xs.len()
    &&& forall|j: int| 0 <= j < xs.len() ==> (#[trigger] v[j])@ == xs[j]@
}

/// The commitment a request's number names: unknown numbers, and levels
/// other than processed, confirmed and finalized, are refused.
pub open spec fn commitment_conversion(value: i32) -> Result<ConfigFilterCommitment, ConfigFilterError> {
    match commitment_level_of(value) {
        None => Err(ConfigFilterError::UnknownCommitment(value)),
        Some(CommitmentLevelProto::Processed) => Ok(ConfigFilterCommitment::Processed),
        Some(CommitmentLevelProto::Confirmed) => Ok(ConfigFilterCommitment::Confirmed),
        Some(CommitmentLevelProto::Finalized) => Ok(ConfigFilterCommitment::Finalized),
        Some(l) => Err(ConfigFilterError::InvalidCommitment(l)),
    }
}

/// Memcmp offsets of every accounts filter of a request fit a machine word.
pub open spec fn request_offsets_fit(x: SubscribeRequest) -> bool {
    forall|i: int| 0 <= i < x.accounts@.len() ==> offsets_fit((#[trigger] x.accounts@[i]).1.filters@)
}

/// What converting a request gives: the error of the first kind that fails
/// (accounts, transactions, transaction statuses, blocks, then the
/// commitment), or every filter converted.
pub open spec fn filter_from_request(x: SubscribeRequest, r: Result<ConfigFilter, ConfigFilterError>) -> bool {
    if accounts_map_fails(x.accounts@) {
        (r matches Err(e) && accounts_map_error(x.accounts@, e))
    } else if transactions_map_fails(x.transactions@) {
        (r matches Err(e) && transactions_map_error(x.transactions@, e))
    } else if transactions_map_fails(x.transactions_status@) {
        (r matches Err(e) && transactions_map_error(x.transactions_status@, e))
    } else if blocks_map_fails(x.blocks@) {
        (r matches Err(e) && blocks_map_error(x.blocks@, e))
    } else if (x.commitment matches Some(c) && commitment_conversion(c) is Err) {
        r == Err::<ConfigFilter, ConfigFilterError>(commitment_conversion(x.commitment->0)->Err_0)
    } else {
        (r matches Ok(f) && {
            &&& slots_converted(x.slots@, f.slots@)
            &&& accounts_map_converted(x.accounts@, f.accounts@)
            &&& data_slices_converted(x.accounts_data_slice@, f.accounts_data_slice@)
            &&& transactions_map_converted(x.transactions@, f.transactions@)
            &&& transactions_map_converted(x.transactions_status@, f.transactions_status@)
            &&& names_converted(x.entry@, f.entries@)
            &&& names_converted(x.blocks_meta@, f.blocks_meta@)
            &&& blocks_map_converted(x.blocks@, f.blocks@)
            &&& f.commitment == match x.commitment {
                Some(c) => Some(commitment_conversion(c)->Ok_0),
                None => None,
            }
        })
    }
}

/// Converts the named accounts filters in order.
fn convert_accounts(xs: &Vec<(String, SubscribeRequestFilterAccounts)>) -> (r: Result<
    Vec<(String, ConfigFilterAccounts)>,
    ConfigFilterError,
>)
    requires
        forall|i: int| 0 <= i < xs@.len() ==> offsets_fit((#[trigger] xs@[i]).1.filters@),
    ensures
        match r {
            Ok(v) => !accounts_map_fails(xs@) && accounts_map_converted(xs@, v@),
            Err(e) => accounts_map_fails(xs@) && accounts_map_error(xs@, e),
        },
{
    let mut out: Vec<(String, ConfigFilterAccounts)> = Vec::new();
    let mut i: usize = 0;
    while i < xs.len()
        invariant
            i <= xs@.len(),
            forall|k: int| 0 <= k < xs@.len() ==> offsets_fit((#[trigger] xs@[k]).1.filters@),
            out@.len() == i,
            forall|j: int| 0 <= j < i ==> !accounts_request_fails(#[trigger] xs@[j].1),
            forall|j: int|
                0 <= j < i ==> (#[trigger] out@[j]).0@ == xs@[j].0@ && accounts_conversion(xs@[j].1, Ok(out@[j].1)),
        decreases xs@.len() - i,
    {
        proof {
            assert(offsets_fit(xs@[i as int].1.filters@));
        }
        match ConfigFilterAccounts::try_from_request(&xs[i].1) {
            Ok(a) => {
                out.push((xs[i].0.clone(), a));
            },
            Err(e) => {
                proof {
                    assert(accounts_request_fails(xs@[i as int].1));
                }
                return Err(e);
            },
        }
        i = i + 1;
    }
    Ok(out)
}

/// Converts the named transactions filters in order.
fn convert_transactions(xs: &Vec<(String, SubscribeRequestFilterTransactions)>) -> (r: Result<
    Vec<(String, ConfigFilterTransactions)>,
    ConfigFilterError,
>)
    ensures
        match r {
            Ok(v) => !transactions_map_fails(xs@) && transactions_map_converted(xs@, v@),
            Err(e) => transactions_map_fails(xs@) && transactions_map_error(xs@, e),
        },
{
    let mut out: Vec<(String, ConfigFilterTransactions)> = Vec::new();
    let mut i: usize = 0;
    while i < xs.len()
        invariant
            i <= xs@.len(),
            out@.len() == i,
            forall|j: int| 0 <= j < i ==> !transactions_request_fails(#[trigger] xs@[j].1),
            forall|j: int|
                0 <= j < i ==> (#[trigger] out@[j]).0@ == xs@[j].0@ && transactions_conversion(
                    xs@[j].1,
                    Ok(out@[j].1),
                ),
        decreases xs@.len() - i,
    {
        match ConfigFilterTransactions::try_from_request(&xs[i].1) {
            Ok(a) => {
                out.push((xs[i].0.clone(), a));
            },
            Err(e) => {
                proof {
                    assert(transactions_request_fails(xs@[i as int].1));
                }
                return Err(e);
            },
        }
        i = i + 1;
    }
    Ok(out)
}

/// Converts the named blocks filters in order.
fn convert_blocks(xs: &Vec<(String, SubscribeRequestFilterBlocks)>) -> (r: Result<
    Vec<(String, ConfigFilterBlocks)>,
    ConfigFilterError,
>)
    ensures
        match r {
            Ok(v) => !blocks_map_fails(xs@) && blocks_map_converted(xs@, v@),
            Err(e) => blocks_map_fails(xs@) && blocks_map_error(xs@, e),
        },
{
    let mut out: Vec<(String, ConfigFilterBlocks)> = Vec::new();
    let mut i: usize = 0;
    while i < xs.len()
        invariant
            i <= xs@.len(),
            out@.len() == i,
            forall|j: int| 0 <= j < i ==> !blocks_request_fails(#[trigger] xs@[j].1),
            forall|j: int|
                0 <= j < i ==> (#[trigger] out@[j]).0@ == xs@[j].0@ && blocks_conversion(xs@[j].1, Ok(out@[j].1)),
        decreases xs@.len() - i,
    {
        match ConfigFilterBlocks::try_from_request(&xs[i].1) {
            Ok(a) => {
                out.push((xs[i].0.clone(), a));
            },
            Err(e) => {
                proof {
                    assert(blocks_request_fails(xs@[i as int].1));
                }
                return Err(e);
            },
        }
        i = i + 1;
    }
    Ok(out)
}

/// The named slots filters, carried over.
fn convert_slots(xs: &Vec<(String, SubscribeRequestFilterSlots)>) -> (v: Vec<(String, ConfigFilterSlots)>)
    ensures
        slots_converted(xs@, v@),
{
    let mut out: Vec<(String, ConfigFilterSlots)> = Vec::new();
    let mut i: usize = 0;
    while i < xs.len()
        invariant
            i <= xs@.len(),
            out@.len() == i,
            forall|j: int|
                0 <= j < i ==> (#[trigger] out@[j]).0@ == xs@[j].0@ && out@[j].1.filter_by_commitment
                    == xs@[j].1.filter_by_commitment,
        decreases xs@.len() - i,
    {
        out.push((xs[i].0.clone(), ConfigFilterSlots { filter_by_commitment: xs[i].1.filter_by_commitment }));
        i = i + 1;
    }
    out
}

/// The data slices, carried over.
fn convert_data_slices(xs: &Vec<SubscribeRequestAccountsDataSlice>) -> (v: Vec<ConfigFilterAccountsDataSlice>)
    ensures
        data_slices_converted(xs@, v@),
{
    let mut out: Vec<ConfigFilterAccountsDataSlice> = Vec::new();
    let mut i: usize = 0;
    while i < xs.len()
        invariant
            i <= xs@.len(),
            out@.len() == i,
            forall|j: int| 0 <= j < i ==> (#[trigger] out@[j]).offset == xs@[j].offset && out@[j].length == xs@[j].length,
        decreases xs@.len() - i,
    {
        out.push(ConfigFilterAccountsDataSlice { offset: xs[i].offset, length: xs[i].length });
        i = i + 1;
    }
    out
}

/// A copy of a list of names.
fn copy_names(xs: &Vec<String>) -> (v: Vec<String>)
    ensures
        names_converted(xs@, v@),
{
    let mut out: Vec<String> = Vec::new();
    let mut i: usize = 0;
    while i < xs.len()
        invariant
            i <= xs@.len(),
            out@.len() == i,
            forall|j: int| 0 <= j < i ==> (#[trigger] out@[j])@ == xs@[j]@,
        decreases xs@.len() - i,
    {
        out.push(xs[i].clone());
        i = i + 1;
    }
    out
}

impl ConfigFilter {
    /// Converts a subscription request into filters.
    pub fn try_from_request(value: &SubscribeRequest) -> (r: Result<ConfigFilter, ConfigFilterError>)
        requires
            request_offsets_fit(*value),
        ensures
            filter_from_request(*value, r),
    {
        let slots = convert_slots(&value.slots);
        let accounts = match convert_accounts(&value.accounts) {
            Ok(a) => a,
            Err(e) => {
                return Err(e);
            },
        };
        let accounts_data_slice = convert_data_slices(&value.accounts_data_slice);
        let transactions = match convert_transactions(&value.transactions) {
            Ok(t) => t,
            Err(e) => {
                return Err(e);
            },
        };
        let transactions_status = match convert_transactions(&value.transactions_status) {
            Ok(t) => t,
            Err(e) => {
                return Err(e);
            },
        };
        let entries = copy_names(&value.entry);
        let blocks_meta = copy_names(&value.blocks_meta);
        let blocks = match convert_blocks(&value.blocks) {
            Ok(b) => b,
            Err(e) => {
                return Err(e);
            },
        };
        let commitment = match value.commitment {
            Some(c) => match ConfigFilterCommitment::try_from_i32(c) {
                Ok(c) => Some(c),
                Err(e) => {
                    return Err(e);
                },
            },
            None => None,
        };
        Ok(ConfigFilter {
            slots,
            accounts,
            accounts_data_slice,
            transactions,
            transactions_status,
            entries,
            blocks_meta,
            blocks,
            commitment,
        })
    }
}

/// The base58 text of a public key, as its `Display` writes it.
pub uninterp spec fn pubkey_text(key: Seq<u8>) -> Seq<char>;

/// The base58 text of a signature, as its `Display` writes it.
pub uninterp spec fn signature_text(signature: Seq<u8>) -> Seq<char>;

/// Writes a public key with the `Display` of `solana_sdk::pubkey::Pubkey`
/// (base58). The text is only named, not restated.
#[verifier::external_body]
fn pubkey_to_string(key: &Pubkey) -> (s: String)
    ensures
        s@ == pubkey_text(key.0@),
{
    solana_sdk::pubkey::Pubkey::new_from_array(key.0).to_string()
}

/// Writes a signature with the `Display` of
/// `solana_sdk::signature::Signature` (base58). The text is only named.
#[verifier::external_body]
fn signature_to_string(signature: &Signature) -> (s: String)
    ensures
        s@ == signature_text(signature.0@),
{
    solana_sdk::signature::Signature::from(signature.0).to_string()
}

/// `ts` are the texts of the keys `ks`, in order.
pub open spec fn key_texts(ks: Seq<Pubkey>, ts: Seq<String>) -> bool {
    &&& ts.len() == ks.len()
    &&& forall|i: int| 0 <= i < ks.len() ==> (#[trigger] ts[i])@ == pubkey_text(ks[i].0@)
}

/// The texts of a list of keys.
fn keys_to_strings(ks: &Vec<Pubkey>) -> (ts: Vec<String>)
    ensures
        key_texts(ks@, ts@),
{
    let mut out: Vec<String> = Vec::new();
    let mut i: usize = 0;
    while i < ks.len()
        invariant
            i <= ks@.len(),
            out@.len() == i,
            forall|j: int| 0 <= j < i ==> (#[trigger] out@[j])@ == pubkey_text(ks@[j].0@),
        decreases ks@.len() - i,
    {
        out.push(pubkey_to_string(&ks[i]));
        i = i + 1;
    }
    out
}

/// A copy of some bytes.
fn copy_bytes(b: &Vec<u8>) -> (v: Vec<u8>)
    ensures
        v@ == b@,
{
    let mut v: Vec<u8> = Vec::new();
    let mut i: usize = 0;
    while i < b.len()
        invariant
            i <= b@.len(),
            v@ == b@.take(i as int),
        decreases b@.len() - i,
    {
        proof {
            assert(b@.take(i + 1) =~= b@.take(i as int).push(b@[i as int]));
        }
        v.push(b[i]);
        i = i + 1;
    }
    proof {
        assert(b@.take(i as int) =~= b@);
    }
    v
}

/// An offset as a request writes it.
fn offset_u64(offset: usize) -> (r: u64)
    ensures
        r == offset,
{
    offset as u64
}

/// What a data filter becomes in a request: memcmp data as raw bytes, a
/// token account state filter as `true`.
pub open spec fn filter_request_of(f: ConfigFilterAccountsFilter, x: SubscribeRequestFilterAccountsFilter) -> bool {
    match f {
        ConfigFilterAccountsFilter::Memcmp { offset, data } => (x.filter matches Some(AccountsFilterData::Memcmp(m))
            && m.offset == offset && (m.data matches Some(MemcmpData::Bytes(b)) && b@ == data@)),
        ConfigFilterAccountsFilter::DataSize(n) => (x.filter matches Some(AccountsFilterData::Datasize(k)) && k == n),
        ConfigFilterAccountsFilter::TokenAccountState => (x.filter matches Some(
            AccountsFilterData::TokenAccountState(b),
        ) && b),
        ConfigFilterAccountsFilter::Lamports(l) => (x.filter matches Some(AccountsFilterData::Lamports(c)) && c
            == SubscribeRequestFilterAccountsFilterLamports { cmp: Some(l) }),
    }
}

impl ConfigFilterAccountsFilter {
    /// The data filter as a request writes it.
    pub fn to_request(&self) -> (x: SubscribeRequestFilterAccountsFilter)
        ensures
            filter_request_of(*self, x),
    {
        let data = match self {
            ConfigFilterAccountsFilter::Memcmp { offset, data } => AccountsFilterData::Memcmp(
                SubscribeRequestFilterAccountsFilterMemcmp {
                    offset: offset_u64(*offset),
                    data: Some(MemcmpData::Bytes(copy_bytes(data))),
                },
            ),
            ConfigFilterAccountsFilter::DataSize(n) => AccountsFilterData::Datasize(*n),
            ConfigFilterAccountsFilter::TokenAccountState => AccountsFilterData::TokenAccountState(true),
            ConfigFilterAccountsFilter::Lamports(l) => AccountsFilterData::Lamports(
                SubscribeRequestFilterAccountsFilterLamports { cmp: Some(*l) },
            ),
        };
        SubscribeRequestFilterAccountsFilter { filter: Some(data) }
    }
}

/// What an accounts filter becomes in a request.
pub open spec fn accounts_request_of(c: ConfigFilterAccounts, x: SubscribeRequestFilterAccounts) -> bool {
    &&& key_texts(c.account@, x.account@)
    &&& key_texts(c.owner@, x.owner@)
    &&& x.filters@.len() == c.filters@.len()
    &&& forall|i: int| 0 <= i < c.filters@.len() ==> filter_request_of(c.filters@[i], #[trigger] x.filters@[i])
    &&& x.nonempty_txn_signature == c.nonempty_txn_signature
}

impl ConfigFilterAccounts {
    /// The accounts filter as a request writes it.
    pub fn to_request(&self) -> (x: SubscribeRequestFilterAccounts)
        ensures
            accounts_request_of(*self, x),
    {
        let mut filters: Vec<SubscribeRequestFilterAccountsFilter> = Vec::new();
        let mut i: usize = 0;
        while i < self.filters.len()
            invariant
                i <= self.filters@.len(),
                filters@.len() == i,
                forall|j: int| 0 <= j < i ==> filter_request_of(self.filters@[j], #[trigger] filters@[j]),
            decreases self.filters@.len() - i,
        {
            filters.push(self.filters[i].to_request());
            i = i + 1;
        }
        SubscribeRequestFilterAccounts {
            account: keys_to_strings(&self.account),
            owner: keys_to_strings(&self.owner),
            filters,
            nonempty_txn_signature: self.nonempty_txn_signature,
        }
    }
}

/// What a transactions filter becomes in a request.
pub open spec fn transactions_request_of(c: ConfigFilterTransactions, x: SubscribeRequestFilterTransactions) -> bool {
    &&& x.vote == c.vote
    &&& x.failed == c.failed
    &&& match c.signature {
        Some(s) => (x.signature matches Some(t) && t@ == signature_text(s.0@)),
        None => x.signature is None,
    }
    &&& key_texts(c.account_include@, x.account_include@)
    &&& key_texts(c.account_exclude@, x.account_exclude@)
    &&& key_texts(c.account_required@, x.account_required@)
}

impl ConfigFilterTransactions {
    /// The transactions filter as a request writes it.
    pub fn to_request(&self) -> (x: SubscribeRequestFilterTransactions)
        ensures
            transactions_request_of(*self, x),
    {
        let signature = match &self.signature {
            Some(s) => Some(signature_to_string(s)),
            None => None,
        };
        SubscribeRequestFilterTransactions {
            vote: self.vote,
            failed: self.failed,
            signature,
            account_include: keys_to_strings(&self.account_include),
            account_exclude: keys_to_strings(&self.account_exclude),
            account_required: keys_to_strings(&self.account_required),
        }
    }
}

/// What a blocks filter becomes in a request.
pub open spec fn blocks_request_of(c: ConfigFilterBlocks, x: SubscribeRequestFilterBlocks) -> bool {
    &&& key_texts(c.account_include@, x.account_include@)
    &&& x.include_transactions == c.include_transactions
    &&& x.include_accounts == c.include_accounts
    &&& x.include_entries == c.include_entries
}

impl ConfigFilterBlocks {
    /// The blocks filter as a request writes it.
    pub fn to_request(&self) -> (x: SubscribeRequestFilterBlocks)
        ensures
            blocks_request_of(*self, x),
    {
        SubscribeRequestFilterBlocks {
            account_include: keys_to_strings(&self.account_include),
            include_transactions: self.include_transactions,
            include_accounts: self.include_accounts,
            include_entries: self.include_entries,
        }
    }
}

/// What a subscription's filters become in a request: every filter under
/// its name, the commitment by its number.
pub open spec fn request_of(c: ConfigFilter, x: SubscribeRequest) -> bool {
    &&& x.from_slot is None
    &&& x.ping is None
    &&& slots_converted(x.slots@, c.slots@)
    &&& x.accounts@.len() == c.accounts@.len()
    &&& forall|j: int|
        0 <= j < c.accounts@.len() ==> (#[trigger] x.accounts@[j]).0@ == c.accounts@[j].0@ && accounts_request_of(
            c.accounts@[j].1,
            x.accounts@[j].1,
        )
    &&& data_slices_converted(x.accounts_data_slice@, c.accounts_data_slice@)
    &&& x.transactions@.len() == c.transactions@.len()
    &&& forall|j: int|
        0 <= j < c.transactions@.len() ==> (#[trigger] x.transactions@[j]).0@ == c.transactions@[j].0@
            && transactions_request_of(c.transactions@[j].1, x.transactions@[j].1)
    &&& x.transactions_status@.len() == c.transactions_status@.len()
    &&& forall|j: int|
        0 <= j < c.transactions_status@.len() ==> (#[trigger] x.transactions_status@[j]).0@
            == c.transactions_status@[j].0@ && transactions_request_of(
            c.transactions_status@[j].1,
            x.transactions_status@[j].1,
        )
    &&& names_converted(x.entry@, c.entries@)
    &&& names_converted(x.blocks_meta@, c.blocks_meta@)
    &&& x.blocks@.len() == c.blocks@.len()
    &&& forall|j: int|
        0 <= j < c.blocks@.len() ==> (#[trigger] x.blocks@[j]).0@ == c.blocks@[j].0@ && blocks_request_of(
            c.blocks@[j].1,
            x.blocks@[j].1,
        )
    &&& x.commitment == match c.commitment {
        Some(m) => Some(commitment_number(m)),
        None => None::<i32>,
    }
}

/// The named transactions filters as a request writes them.
fn transactions_to_request(v: &Vec<(String, ConfigFilterTransactions)>) -> (x: Vec<(String, SubscribeRequestFilterTransactions)>)
    ensures
        x@.len() == v@.len(),
        forall|j: int|
            0 <= j < v@.len() ==> (#[trigger] x@[j]).0@ == v@[j].0@ && transactions_request_of(v@[j].1, x@[j].1),
{
    let mut out: Vec<(String, SubscribeRequestFilterTransactions)> = Vec::new();
    let mut i: usize = 0;
    while i < v.len()
        invariant
            i <= v@.len(),
            out@.len() == i,
            forall|j: int|
                0 <= j < i ==> (#[trigger] out@[j]).0@ == v@[j].0@ && transactions_request_of(v@[j].1, out@[j].1),
        decreases v@.len() - i,
    {
        out.push((v[i].0.clone(), v[i].1.to_request()));
        i = i + 1;
    }
    out
}

impl ConfigFilter {
    /// The filters as a subscription request writes them.
    pub fn to_request(&self) -> (x: SubscribeRequest)
        ensures
            request_of(*self, x),
    {
        let mut slots: Vec<(String, SubscribeRequestFilterSlots)> = Vec::new();
        let mut i: usize = 0;
        while i < self.slots.len()
            invariant
                i <= self.slots@.len(),
                slots@.len() == i,
                forall|j: int|
                    0 <= j < i ==> (#[trigger] slots@[j]).0@ == self.slots@[j].0@ && slots@[j].1.filter_by_commitment
                        == self.slots@[j].1.filter_by_commitment,
            decreases self.slots@.len() - i,
        {
            slots.push(
                (self.slots[i].0.clone(), SubscribeRequestFilterSlots { filter_by_commitment: self.slots[i].1.filter_by_commitment }),
            );
            i = i + 1;
        }
        let mut accounts: Vec<(String, SubscribeRequestFilterAccounts)> = Vec::new();
        let mut i: usize = 0;
        while i < self.accounts.len()
            invariant
                i <= self.accounts@.len(),
                accounts@.len() == i,
                forall|j: int|
                    0 <= j < i ==> (#[trigger] accounts@[j]).0@ == self.accounts@[j].0@ && accounts_request_of(
                        self.accounts@[j].1,
                        accounts@[j].1,
                    ),
            decreases self.accounts@.len() - i,
        {
            accounts.push((self.accounts[i].0.clone(), self.accounts[i].1.to_request()));
            i = i + 1;
        }
        let mut data_slices: Vec<SubscribeRequestAccountsDataSlice> = Vec::new();
        let mut i: usize = 0;
        while i < self.accounts_data_slice.len()
            invariant
                i <= self.accounts_data_slice@.len(),
                data_slices@.len() == i,
                forall|j: int|
                    0 <= j < i ==> (#[trigger] data_slices@[j]).offset == self.accounts_data_slice@[j].offset
                        && data_slices@[j].length == self.accounts_data_slice@[j].length,
            decreases self.accounts_data_slice@.len() - i,
        {
            data_slices.push(
                SubscribeRequestAccountsDataSlice {
                    offset: self.accounts_data_slice[i].offset,
                    length: self.accounts_data_slice[i].length,
                },
            );
            i = i + 1;
        }
        let mut blocks: Vec<(String, SubscribeRequestFilterBlocks)> = Vec::new();
        let mut i: usize = 0;
        while i < self.blocks.len()
            invariant
                i <= self.blocks@.len(),
                blocks@.len() == i,
                forall|j: int|
                    0 <= j < i ==> (#[trigger] blocks@[j]).0@ == self.blocks@[j].0@ && blocks_request_of(
                        self.blocks@[j].1,
                        blocks@[j].1,
                    ),
            decreases self.blocks@.len() - i,
        {
            blocks.push((self.blocks[i].0.clone(), self.blocks[i].1.to_request()));
            i = i + 1;
        }
        let commitment = match self.commitment {
            Some(c) => Some(c.to_i32()),
            None => None,
        };
        SubscribeRequest {
            slots,
            accounts,
            transactions: transactions_to_request(&self.transactions),
            transactions_status: transactions_to_request(&self.transactions_status),
            entry: copy_names(&self.entries),
            blocks,
            blocks_meta: copy_names(&self.blocks_meta),
            commitment,
            accounts_data_slice: data_slices,
            from_slot: None,
            ping: None,
        }
    }
}

/// Every key reads back from its text.
pub open spec fn keys_parse_back(ks: Seq<Pubkey>) -> bool {
    forall|i: int|
        0 <= i < ks.len() ==> pubkey_parsed(pubkey_text((#[trigger] ks[i]).0@)) == Ok::<Seq<u8>, PubkeyError>(
            ks[i].0@,
        )
}

/// The signature, if any, reads back from its text.
pub open spec fn signature_parses_back(s: Option<Signature>) -> bool {
    s matches Some(x) ==> signature_parsed(signature_text(x.0@)) == Ok::<Seq<u8>, SignatureError>(x.0@)
}

/// The texts of keys that read back parse to the keys.
proof fn lemma_keys_round_trip(ks: Seq<Pubkey>, ts: Seq<String>)
    requires
        key_texts(ks, ts),
        keys_parse_back(ks),
    ensures
        keys_parsed(ts) == Ok::<Seq<Seq<u8>>, (Seq<char>, PubkeyError)>(key_bytes(ks)),
    decreases ks.len(),
{
    if ks.len() == 0 {
        assert(key_bytes(ks) =~= Seq::<Seq<u8>>::empty());
    } else {
        let ks1 = ks.drop_first();
        let ts1 = ts.drop_first();
        assert(key_texts(ks1, ts1)) by {
            assert forall|i: int| 0 <= i < ks1.len() implies (#[trigger] ts1[i])@ == pubkey_text(ks1[i].0@) by {
                assert(ts1[i] == ts[i + 1]);
                assert(ks1[i] == ks[i + 1]);
            }
        }
        assert(keys_parse_back(ks1)) by {
            assert forall|i: int| 0 <= i < ks1.len() implies pubkey_parsed(pubkey_text((#[trigger] ks1[i]).0@))
                == Ok::<Seq<u8>, PubkeyError>(ks1[i].0@) by {
                assert(ks1[i] == ks[i + 1]);
            }
        }
        lemma_keys_round_trip(ks1, ts1);
        assert(ts[0]@ == pubkey_text(ks[0].0@));
        assert(pubkey_parsed(pubkey_text(ks[0].0@)) == Ok::<Seq<u8>, PubkeyError>(ks[0].0@));
        assert(key_bytes(ks) =~= seq![ks[0].0@] + key_bytes(ks1));
    }
}

/// Two data filters are the same.
pub open spec fn same_data_filter(f: ConfigFilterAccountsFilter, g: ConfigFilterAccountsFilter) -> bool {
    match (f, g) {
        (
            ConfigFilterAccountsFilter::Memcmp { offset: o1, data: d1 },
            ConfigFilterAccountsFilter::Memcmp { offset: o2, data: d2 },
        ) => o1 == o2 && d1@ == d2@,
        (ConfigFilterAccountsFilter::DataSize(a), ConfigFilterAccountsFilter::DataSize(b)) => a == b,
        (ConfigFilterAccountsFilter::TokenAccountState, ConfigFilterAccountsFilter::TokenAccountState) => true,
        (ConfigFilterAccountsFilter::Lamports(a), ConfigFilterAccountsFilter::Lamports(b)) => a == b,
        _ => false,
    }
}

/// Memcmp data within `MAX_DATA_SIZE` bytes.
pub open spec fn data_within_limit(f: ConfigFilterAccountsFilter) -> bool {
    f matches ConfigFilterAccountsFilter::Memcmp { data, .. } ==> data@.len() <= MAX_DATA_SIZE
}

/// A data filter within the limit, written into a request, converts back
/// to itself.
proof fn lemma_data_filter_round_trip(f: ConfigFilterAccountsFilter, x: SubscribeRequestFilterAccountsFilter, g: ConfigFilterAccountsFilter)
    requires
        filter_request_of(f, x),
        data_within_limit(f),
    ensures
        accounts_filter_from_request(x) is Ok,
        matches_conversion(g, accounts_filter_from_request(x)->Ok_0) ==> same_data_filter(f, g),
{
}

/// The data filters of a request written from filters within the limit
/// all convert.
proof fn lemma_data_filters_convert(fs: Seq<ConfigFilterAccountsFilter>, xs: Seq<SubscribeRequestFilterAccountsFilter>)
    requires
        xs.len() == fs.len(),
        forall|i: int| 0 <= i < fs.len() ==> filter_request_of(fs[i], #[trigger] xs[i]),
        forall|i: int| 0 <= i < fs.len() ==> data_within_limit(#[trigger] fs[i]),
    ensures
        first_filter_conversion_error(xs) is None,
    decreases xs.len(),
{
    if xs.len() > 0 {
        lemma_data_filter_round_trip(fs[0], xs[0], fs[0]);
        let fs1 = fs.drop_first();
        let xs1 = xs.drop_first();
        assert forall|i: int| 0 <= i < fs1.len() implies filter_request_of(fs1[i], #[trigger] xs1[i]) by {
            assert(fs1[i] == fs[i + 1]);
            assert(xs1[i] == xs[i + 1]);
        }
        assert forall|i: int| 0 <= i < fs1.len() implies data_within_limit(#[trigger] fs1[i]) by {
            assert(fs1[i] == fs[i + 1]);
        }
        lemma_data_filters_convert(fs1, xs1);
    }
}

/// Two accounts filters are the same.
pub open spec fn same_accounts(a: ConfigFilterAccounts, b: ConfigFilterAccounts) -> bool {
    &&& key_bytes(a.account@) == key_bytes(b.account@)
    &&& key_bytes(a.owner@) == key_bytes(b.owner@)
    &&& a.filters@.len() == b.filters@.len()
    &&& forall|i: int| 0 <= i < a.filters@.len() ==> same_data_filter(a.filters@[i], #[trigger] b.filters@[i])
    &&& a.nonempty_txn_signature == b.nonempty_txn_signature
}

/// An accounts filter's keys read back and its data filters are within the
/// limits a request is checked against.
pub open spec fn accounts_round_trips(a: ConfigFilterAccounts) -> bool {
    &&& keys_parse_back(a.account@)
    &&& keys_parse_back(a.owner@)
    &&& a.filters@.len() <= MAX_FILTERS
    &&& forall|i: int| 0 <= i < a.filters@.len() ==> data_within_limit(#[trigger] a.filters@[i])
}

/// An accounts filter written into a request converts back to itself.
proof fn lemma_accounts_round_trip(c: ConfigFilterAccounts, x: SubscribeRequestFilterAccounts)
    requires
        accounts_request_of(c, x),
        accounts_round_trips(c),
    ensures
        !accounts_request_fails(x),
        forall|v: ConfigFilterAccounts| accounts_conversion(x, Ok(v)) ==> same_accounts(c, v),
{
    lemma_keys_round_trip(c.account@, x.account@);
    lemma_keys_round_trip(c.owner@, x.owner@);
    lemma_data_filters_convert(c.filters@, x.filters@);
    assert forall|v: ConfigFilterAccounts| accounts_conversion(x, Ok(v)) implies same_accounts(c, v) by {
        assert forall|i: int| 0 <= i < c.filters@.len() implies same_data_filter(
            c.filters@[i],
            #[trigger] v.filters@[i],
        ) by {
            lemma_data_filter_round_trip(c.filters@[i], x.filters@[i], v.filters@[i]);
        }
    }
}

/// Two transactions filters are the same.
pub open spec fn same_transactions(a: ConfigFilterTransactions, b: ConfigFilterTransactions) -> bool {
    &&& a.vote == b.vote
    &&& a.failed == b.failed
    &&& match (a.signature, b.signature) {
        (Some(s), Some(t)) => s.0@ == t.0@,
        (None, None) => true,
        _ => false,
    }
    &&& key_bytes(a.account_include@) == key_bytes(b.account_include@)
    &&& key_bytes(a.account_exclude@) == key_bytes(b.account_exclude@)
    &&& key_bytes(a.account_required@) == key_bytes(b.account_required@)
}

/// A transactions filter's keys and signature read back.
pub open spec fn transactions_round_trips(a: ConfigFilterTransactions) -> bool {
    &&& signature_parses_back(a.signature)
    &&& keys_parse_back(a.account_include@)
    &&& keys_parse_back(a.account_exclude@)
    &&& keys_parse_back(a.account_required@)
}

/// A transactions filter written into a request converts back to itself.
proof fn lemma_transactions_round_trip(c: ConfigFilterTransactions, x: SubscribeRequestFilterTransactions)
    requires
        transactions_request_of(c, x),
        transactions_round_trips(c),
    ensures
        !transactions_request_fails(x),
        forall|v: ConfigFilterTransactions| transactions_conversion(x, Ok(v)) ==> same_transactions(c, v),
{
    lemma_keys_round_trip(c.account_include@, x.account_include@);
    lemma_keys_round_trip(c.account_exclude@, x.account_exclude@);
    lemma_keys_round_trip(c.account_required@, x.account_required@);
}

/// Two blocks filters are the same.
pub open spec fn same_blocks(a: ConfigFilterBlocks, b: ConfigFilterBlocks) -> bool {
    &&& key_bytes(a.account_include@) == key_bytes(b.account_include@)
    &&& a.include_transactions == b.include_transactions
    &&& a.include_accounts == b.include_accounts
    &&& a.include_entries == b.include_entries
}

/// A blocks filter written into a request converts back to itself.
proof fn lemma_blocks_round_trip(c: ConfigFilterBlocks, x: SubscribeRequestFilterBlocks)
    requires
        blocks_request_of(c, x),
        keys_parse_back(c.account_include@),
    ensures
        !blocks_request_fails(x),
        forall|v: ConfigFilterBlocks| blocks_conversion(x, Ok(v)) ==> same_blocks(c, v),
{
    lemma_keys_round_trip(c.account_include@, x.account_include@);
}

/// Two subscriptions' filters are the same: the same names in the same
/// order, each with the same filter, and the same commitment.
pub open spec fn same_filter(a: ConfigFilter, b: ConfigFilter) -> bool {
    &&& b.slots@.len() == a.slots@.len()
    &&& forall|j: int|
        0 <= j < a.slots@.len() ==> (#[trigger] b.slots@[j]).0@ == a.slots@[j].0@ && b.slots@[j].1 == a.slots@[j].1
    &&& b.accounts@.len() == a.accounts@.len()
    &&& forall|j: int|
        0 <= j < a.accounts@.len() ==> (#[trigger] b.accounts@[j]).0@ == a.accounts@[j].0@ && same_accounts(
            a.accounts@[j].1,
            b.accounts@[j].1,
        )
    &&& b.accounts_data_slice@ == a.accounts_data_slice@
    &&& b.transactions@.len() == a.transactions@.len()
    &&& forall|j: int|
        0 <= j < a.transactions@.len() ==> (#[trigger] b.transactions@[j]).0@ == a.transactions@[j].0@
            && same_transactions(a.transactions@[j].1, b.transactions@[j].1)
    &&& b.transactions_status@.len() == a.transactions_status@.len()
    &&& forall|j: int|
        0 <= j < a.transactions_status@.len() ==> (#[trigger] b.transactions_status@[j]).0@
            == a.transactions_status@[j].0@ && same_transactions(
            a.transactions_status@[j].1,
            b.transactions_status@[j].1,
        )
    &&& names_converted(a.entries@, b.entries@)
    &&& names_converted(a.blocks_meta@, b.blocks_meta@)
    &&& b.blocks@.len() == a.blocks@.len()
    &&& forall|j: int|
        0 <= j < a.blocks@.len() ==> (#[trigger] b.blocks@[j]).0@ == a.blocks@[j].0@ && same_blocks(
            a.blocks@[j].1,
            b.blocks@[j].1,
        )
    &&& b.commitment == a.commitment
}

/// Every key and signature of the filters reads back from its text, and
/// every accounts filter is within the data filter limits.
pub open spec fn filter_round_trips(c: ConfigFilter) -> bool {
    &&& forall|j: int| 0 <= j < c.accounts@.len() ==> accounts_round_trips((#[trigger] c.accounts@[j]).1)
    &&& forall|j: int| 0 <= j < c.transactions@.len() ==> transactions_round_trips((#[trigger] c.transactions@[j]).1)
    &&& forall|j: int|
        0 <= j < c.transactions_status@.len() ==> transactions_round_trips((#[trigger] c.transactions_status@[j]).1)
    &&& forall|j: int| 0 <= j < c.blocks@.len() ==> keys_parse_back((#[trigger] c.blocks@[j]).1.account_include@)
}

/// Filters written into a request convert back into the same filters,
/// provided their keys and signatures read back from their texts and their
/// data filters are within the limits a request is checked against.
pub proof fn lemma_request_round_trip(c: ConfigFilter, x: SubscribeRequest, r: Result<ConfigFilter, ConfigFilterError>)
    requires
        request_of(c, x),
        filter_round_trips(c),
        filter_from_request(x, r),
    ensures
        r matches Ok(d) && same_filter(c, d),
{
    assert forall|j: int| 0 <= j < x.accounts@.len() implies !accounts_request_fails(#[trigger] x.accounts@[j].1) by {
        assert(accounts_round_trips(c.accounts@[j].1));
        lemma_accounts_round_trip(c.accounts@[j].1, x.accounts@[j].1);
    }
    assert forall|j: int| 0 <= j < x.transactions@.len() implies !transactions_request_fails(
        #[trigger] x.transactions@[j].1,
    ) by {
        assert(transactions_round_trips(c.transactions@[j].1));
        lemma_transactions_round_trip(c.transactions@[j].1, x.transactions@[j].1);
    }
    assert forall|j: int| 0 <= j < x.transactions_status@.len() implies !transactions_request_fails(
        #[trigger] x.transactions_status@[j].1,
    ) by {
        assert(transactions_round_trips(c.transactions_status@[j].1));
        lemma_transactions_round_trip(c.transactions_status@[j].1, x.transactions_status@[j].1);
    }
    assert forall|j: int| 0 <= j < x.blocks@.len() implies !blocks_request_fails(#[trigger] x.blocks@[j].1) by {
        assert(keys_parse_back(c.blocks@[j].1.account_include@));
        lemma_blocks_round_trip(c.blocks@[j].1, x.blocks@[j].1);
    }
    let d = r->Ok_0;
    assert forall|j: int| 0 <= j < c.accounts@.len() implies (#[trigger] d.accounts@[j]).0@ == c.accounts@[j].0@
        && same_accounts(c.accounts@[j].1, d.accounts@[j].1) by {
        assert(accounts_round_trips(c.accounts@[j].1));
        lemma_accounts_round_trip(c.accounts@[j].1, x.accounts@[j].1);
    }
    assert forall|j: int| 0 <= j < c.transactions@.len() implies (#[trigger] d.transactions@[j]).0@
        == c.transactions@[j].0@ && same_transactions(c.transactions@[j].1, d.transactions@[j].1) by {
        assert(transactions_round_trips(c.transactions@[j].1));
        lemma_transactions_round_trip(c.transactions@[j].1, x.transactions@[j].1);
    }
    assert forall|j: int| 0 <= j < c.transactions_status@.len() implies (#[trigger] d.transactions_status@[j]).0@
        == c.transactions_status@[j].0@ && same_transactions(
        c.transactions_status@[j].1,
        d.transactions_status@[j].1,
    ) by {
        assert(transactions_round_trips(c.transactions_status@[j].1));
        lemma_transactions_round_trip(c.transactions_status@[j].1, x.transactions_status@[j].1);
    }
    assert forall|j: int| 0 <= j < c.blocks@.len() implies (#[trigger] d.blocks@[j]).0@ == c.blocks@[j].0@
        && same_blocks(c.blocks@[j].1, d.blocks@[j].1) by {
        assert(keys_parse_back(c.blocks@[j].1.account_include@));
        lemma_blocks_round_trip(c.blocks@[j].1, x.blocks@[j].1);
    }
    assert forall|j: int| 0 <= j < c.slots@.len() implies (#[trigger] d.slots@[j]).0@ == c.slots@[j].0@
        && d.slots@[j].1 == c.slots@[j].1 by {
        assert(x.slots@[j].1.filter_by_commitment == c.slots@[j].1.filter_by_commitment);
    }
    assert(d.accounts_data_slice@ =~= c.accounts_data_slice@) by {
        assert forall|j: int| 0 <= j < c.accounts_data_slice@.len() implies #[trigger] d.accounts_data_slice@[j]
            == c.accounts_data_slice@[j] by {
            assert(x.accounts_data_slice@[j].offset == c.accounts_data_slice@[j].offset);
        }
    }
}

/// A request converts into filters that keep its names, one for one: when
/// each kind of its named filters is a map, so is each kind of the filters.
pub proof fn lemma_request_names_distinct(x: SubscribeRequest, r: Result<ConfigFilter, ConfigFilterError>)
    requires
        filter_from_request(x, r),
        r is Ok,
        x.names_distinct(),
    ensures
        r->Ok_0.names_distinct(),
{
    let f = r->Ok_0;
    lemma_same_names(x.slots@, f.slots@);
    lemma_same_names(x.accounts@, f.accounts@);
    lemma_same_names(x.transactions@, f.transactions@);
    lemma_same_names(x.transactions_status@, f.transactions_status@);
    lemma_same_strings(x.entry@, f.entries@);
    lemma_same_strings(x.blocks_meta@, f.blocks_meta@);
    lemma_same_names(x.blocks@, f.blocks@);
}

/// Filters written into a request keep their names: when each kind of
/// filters is a map, so is each kind of the request's named filters.
pub proof fn lemma_filter_names_distinct_in_request(c: ConfigFilter, x: SubscribeRequest)
    requires
        request_of(c, x),
        c.names_distinct(),
    ensures
        x.names_distinct(),
{
    lemma_same_names(c.slots@, x.slots@);
    lemma_same_names(c.accounts@, x.accounts@);
    lemma_same_names(c.transactions@, x.transactions@);
    lemma_same_names(c.transactions_status@, x.transactions_status@);
    lemma_same_strings(x.entry@, c.entries@);
    lemma_same_strings(x.blocks_meta@, c.blocks_meta@);
    lemma_same_names(c.blocks@, x.blocks@);
}

/// Whether two byte arrays hold the same bytes.
fn same_bytes(a: &[u8], b: &[u8]) -> (r: bool)
    ensures
        r == (a@ == b@),
{
    if a.len() != b.len() {
        return false;
    }
    let mut i: usize = 0;
    while i < a.len()
        invariant
            a@.len() == b@.len(),
            i <= a@.len(),
            forall|j: int| 0 <= j < i ==> a@[j] == b@[j],
        decreases a@.len() - i,
    {
        if a[i] != b[i] {
            return false;
        }
        i = i + 1;
    }
    proof {
        assert(a@ =~= b@);
    }
    true
}

/// Whether a key reads back from its text.
fn key_parses_back(k: &Pubkey) -> (r: bool)
    ensures
        r == (pubkey_parsed(pubkey_text(k.0@)) == Ok::<Seq<u8>, PubkeyError>(k.0@)),
{
    let text = pubkey_to_string(k);
    match parse_pubkey(text.as_str()) {
        Ok(p) => same_bytes(p.0.as_slice(), k.0.as_slice()),
        Err(_) => false,
    }
}

/// Whether every key of a list reads back from its text.
fn keys_parse_back_exec(ks: &Vec<Pubkey>) -> (r: bool)
    ensures
        r == keys_parse_back(ks@),
{
    let mut i: usize = 0;
    while i < ks.len()
        invariant
            i <= ks@.len(),
            keys_parse_back(ks@.take(i as int)),
        decreases ks@.len() - i,
    {
        if !key_parses_back(&ks[i]) {
            proof {
                assert(!(pubkey_parsed(pubkey_text(ks@[i as int].0@)) == Ok::<Seq<u8>, PubkeyError>(ks@[i as int].0@)));
            }
            return false;
        }
        proof {
            assert forall|j: int| 0 <= j < i + 1 implies pubkey_parsed(pubkey_text((#[trigger] ks@.take(i + 1)[j]).0@))
                == Ok::<Seq<u8>, PubkeyError>(ks@.take(i + 1)[j].0@) by {
                if j < i {
                    assert(ks@.take(i + 1)[j] == ks@.take(i as int)[j]);
                }
            }
        }
        i = i + 1;
    }
    proof {
        assert(ks@.take(i as int) =~= ks@);
    }
    true
}

/// Whether an optional signature reads back from its text.
fn signature_parses_back_exec(s: &Option<Signature>) -> (r: bool)
    ensures
        r == signature_parses_back(*s),
{
    match s {
        None => true,
        Some(x) => {
            let text = signature_to_string(x);
            match parse_signature(text.as_str()) {
                Ok(p) => same_bytes(p.0.as_slice(), x.0.as_slice()),
                Err(_) => false,
            }
        },
    }
}

/// Whether a data filter is within the limit a request is checked against.
fn data_within_limit_exec(f: &ConfigFilterAccountsFilter) -> (r: bool)
    ensures
        r == data_within_limit(*f),
{
    match f {
        ConfigFilterAccountsFilter::Memcmp { data, .. } => data.len() <= MAX_DATA_SIZE,
        _ => true,
    }
}

/// Whether the filters convert back to themselves through a request: every
/// key and signature reads back from its text and every accounts filter is
/// within the data filter limits.
pub fn filter_round_trips_exec(c: &ConfigFilter) -> (r: bool)
    ensures
        r == filter_round_trips(*c),
{
    let mut i: usize = 0;
    while i < c.accounts.len()
        invariant
            i <= c.accounts@.len(),
            forall|j: int| 0 <= j < i ==> accounts_round_trips((#[trigger] c.accounts@[j]).1),
        decreases c.accounts@.len() - i,
    {
        let a = &c.accounts[i].1;
        if !keys_parse_back_exec(&a.account) || !keys_parse_back_exec(&a.owner) || a.filters.len() > MAX_FILTERS {
            proof {
                assert(!accounts_round_trips(c.accounts@[i as int].1));
            }
            return false;
        }
        let mut k: usize = 0;
        while k < a.filters.len()
            invariant
                k <= a.filters@.len(),
                i < c.accounts@.len(),
                *a == c.accounts@[i as int].1,
                forall|m: int| 0 <= m < k ==> data_within_limit(#[trigger] a.filters@[m]),
            decreases a.filters@.len() - k,
        {
            let within = data_within_limit_exec(&a.filters[k]);
            if !within {
                proof {
                    assert(!data_within_limit(a.filters@[k as int]));
                    assert(!accounts_round_trips(c.accounts@[i as int].1));
                }
                return false;
            }
            k = k + 1;
        }
        i = i + 1;
    }
    let mut i: usize = 0;
    while i < c.transactions.len()
        invariant
            i <= c.transactions@.len(),
            forall|j: int| 0 <= j < c.accounts@.len() ==> accounts_round_trips((#[trigger] c.accounts@[j]).1),
            forall|j: int| 0 <= j < i ==> transactions_round_trips((#[trigger] c.transactions@[j]).1),
        decreases c.transactions@.len() - i,
    {
        let t = &c.transactions[i].1;
        if !signature_parses_back_exec(&t.signature) || !keys_parse_back_exec(&t.account_include)
            || !keys_parse_back_exec(&t.account_exclude) || !keys_parse_back_exec(&t.account_required) {
            return false;
        }
        i = i + 1;
    }
    let mut i: usize = 0;
    while i < c.transactions_status.len()
        invariant
            i <= c.transactions_status@.len(),
            forall|j: int| 0 <= j < c.accounts@.len() ==> accounts_round_trips((#[trigger] c.accounts@[j]).1),
            forall|j: int| 0 <= j < c.transactions@.len() ==> transactions_round_trips((#[trigger] c.transactions@[j]).1),
            forall|j: int| 0 <= j < i ==> transactions_round_trips((#[trigger] c.transactions_status@[j]).1),
        decreases c.transactions_status@.len() - i,
    {
        let t = &c.transactions_status[i].1;
        if !signature_parses_back_exec(&t.signature) || !keys_parse_back_exec(&t.account_include)
            || !keys_parse_back_exec(&t.account_exclude) || !keys_parse_back_exec(&t.account_required) {
            return false;
        }
        i = i + 1;
    }
    let mut i: usize = 0;
    while i < c.blocks.len()
        invariant
            i <= c.blocks@.len(),
            forall|j: int| 0 <= j < c.accounts@.len() ==> accounts_round_trips((#[trigger] c.accounts@[j]).1),
            forall|j: int| 0 <= j < c.transactions@.len() ==> transactions_round_trips((#[trigger] c.transactions@[j]).1),
            forall|j: int|
                0 <= j < c.transactions_status@.len() ==> transactions_round_trips((#[trigger] c.transactions_status@[j]).1),
            forall|j: int| 0 <= j < i ==> keys_parse_back((#[trigger] c.blocks@[j]).1.account_include@),
        decreases c.blocks@.len() - i,
    {
        if !keys_parse_back_exec(&c.blocks[i].1.account_include) {
            return false;
        }
        i = i + 1;
    }
    true
}

/// Offsets written into a request come from machine words, so they fit one.
proof fn lemma_request_offsets_fit(c: ConfigFilter, x: SubscribeRequest, i: int)
    requires
        request_of(c, x),
        0 <= i < x.accounts@.len(),
    ensures
        offsets_fit(x.accounts@[i].1.filters@),
{
    let cf = c.accounts@[i].1;
    let xf = x.accounts@[i].1;
    assert(accounts_request_of(cf, xf));
    assert forall|k: int| 0 <= k < xf.filters@.len() implies ((#[trigger] xf.filters@[k]).filter matches Some(
        AccountsFilterData::Memcmp(m),
    ) ==> m.offset <= usize::MAX) by {
        assert(filter_request_of(cf.filters@[k], xf.filters@[k]));
    }
}

/// The filters written into a request and converted back: `Some` of the
/// same filters exactly when they convert back to themselves (see
/// `filter_round_trips`), `None` otherwise.
pub fn round_trip(c: &ConfigFilter) -> (r: Option<ConfigFilter>)
    ensures
        r is Some <==> filter_round_trips(*c),
        r matches Some(d) ==> same_filter(*c, d),
{
    if !filter_round_trips_exec(c) {
        return None;
    }
    let x = c.to_request();
    proof {
        assert forall|i: int| 0 <= i < x.accounts@.len() implies offsets_fit((#[trigger] x.accounts@[i]).1.filters@) by {
            lemma_request_offsets_fit(*c, x, i);
        }
    }
    let r = ConfigFilter::try_from_request(&x);
    proof {
        lemma_request_round_trip(*c, x, r);
    }
    match r {
        Ok(d) => Some(d),
        Err(_) => None,
    }
}

} // verus!
