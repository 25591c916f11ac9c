//! On-chain data handling of the oracle's data sources: cached supply lookups, RPC endpoint
//! rotation, and the byte layouts of mint, metadata and token accounts.
use vstd::prelude::*;
use vstd::bytes::{spec_u32_from_le_bytes, spec_u64_from_le_bytes, u32_from_le_bytes, u64_from_le_bytes};
use vstd::slice::slice_subrange;
use vstd::string::StrSliceExecFns;
use vstd::utf8::{decode_utf8, valid_utf8};
use crate::addresses::{parse_address, pubkey_to_string, spec_address_text, spec_parse_address, AddressError};

verus! {

/// Cache entry for storing fetched data with expiration.
pub struct CacheEntry<T> {
    pub data: T,
    /// Expiry time (milliseconds since the Unix epoch)
    pub expires_at_ms: u64,
}

impl<T> CacheEntry<T> {
    /// An entry holding `data` that expires `ttl_ms` after `now_ms`.
    pub fn new(data: T, now_ms: u64, ttl_ms: u64) -> (r: Self)
        requires
            now_ms + ttl_ms <= u64::MAX,
        ensures
            r.data == data,
            r.expires_at_ms == now_ms + ttl_ms,
    {
        CacheEntry { data, expires_at_ms: now_ms + ttl_ms }
    }

    /// Whether the entry has expired at `now_ms`: strictly after its expiry time.
    pub fn is_expired(&self, now_ms: u64) -> (r: bool)
        ensures
            r == (now_ms > self.expires_at_ms),
    {
        now_ms > self.expires_at_ms
    }
}

/// Token supply and decimals of a mint.
pub type SupplyInfo = (u64, u8);

/// Cache of token supplies keyed by mint address.
pub struct SupplyCache {
    entries: Vec<(String, CacheEntry<SupplyInfo>)>,
}

/// The entry stored under `key`, if any.
pub open spec fn cache_lookup(entries: Seq<(String, CacheEntry<SupplyInfo>)>, key: Seq<char>) -> Option<CacheEntry<SupplyInfo>> {
    if exists|i: int| 0 <= i < entries.len() && (#[trigger] entries[i]).0@ == key {
        Some(entries[choose|i: int| 0 <= i < entries.len() && (#[trigger] entries[i]).0@ == key].1)
    } else {
        None
    }
}

/// What a lookup of `key` at `now_ms` answers: the data of a live entry, nothing otherwise.
pub open spec fn cache_answer(entry: Option<CacheEntry<SupplyInfo>>, now_ms: u64) -> Option<SupplyInfo> {
    match entry {
        Some(e) => if now_ms > e.expires_at_ms { None } else { Some(e.data) },
        None => None,
    }
}

impl SupplyCache {
    /// Keys are distinct.
    pub closed spec fn wf(&self) -> bool {
        forall|i: int, j: int|
            0 <= i < j < self.entries@.len() ==> (#[trigger] self.entries@[i]).0@ != (#[trigger] self.entries@[j]).0@
    }

    /// The entry stored for each mint.
    pub closed spec fn lookup(&self, key: Seq<char>) -> Option<CacheEntry<SupplyInfo>> {
        cache_lookup(self.entries@, key)
    }

    /// An empty cache.
    pub fn new() -> (r: Self)
        ensures
            r.wf(),
            forall|k: Seq<char>| r.lookup(k) is None,
    {
        SupplyCache { entries: Vec::new() }
    }

    fn position(&self, mint: &str) -> (r: Option<usize>)
        requires
            self.wf(),
        ensures
            match r {
                Some(i) => i < self.entries@.len() && self.entries@[i as int].0@ == mint@,
                None => forall|i: int| 0 <= i < self.entries@.len() ==> (#[trigger] self.entries@[i]).0@ != mint@,
            },
    {
        let key: String = mint.to_owned();
        let mut i: usize = 0;
        while i < self.entries.len()
            invariant
                key@ == mint@,
                i <= self.entries@.len(),
                forall|k: int| 0 <= k < i ==> (#[trigger] self.entries@[k]).0@ != mint@,
            decreases self.entries@.len() - i,
        {
            if self.entries[i].0 == key {
                return Some(i);
            }
            i = i + 1;
        }
        None
    }

    /// The cached supply of `mint` if it is present and not expired at `now_ms`.
    pub fn get_token_supply(&self, mint: &str, now_ms: u64) -> (r: Option<SupplyInfo>)
        requires
            self.wf(),
        ensures
            r == cache_answer(self.lookup(mint@), now_ms),
    {
        match self.position(mint) {
            Some(i) => {
                proof {
                    let j = choose|j: int| 0 <= j < self.entries@.len() && (#[trigger] self.entries@[j]).0@ == mint@;
                    if j != i {
                        if j < i {
                            assert(self.entries@[j].0@ != self.entries@[i as int].0@);
                        } else {
                            assert(self.entries@[i as int].0@ != self.entries@[j].0@);
                        }
                    }
                }
                let e = &self.entries[i].1;
                if e.is_expired(now_ms) {
                    None
                } else {
                    Some(e.data)
                }
            },
            None => None,
        }
    }

    /// Store `data` for `mint`, expiring `ttl_ms` after `now_ms`; other mints are untouched.
    pub fn set_token_supply(&mut self, mint: String, data: SupplyInfo, now_ms: u64, ttl_ms: u64)
        requires
            old(self).wf(),
            now_ms + ttl_ms <= u64::MAX,
        ensures
            final(self).wf(),
            final(self).lookup(mint@) == Some(CacheEntry { data, expires_at_ms: (now_ms + ttl_ms) as u64 }),
            forall|k: Seq<char>| k != mint@ ==> final(self).lookup(k) == old(self).lookup(k),
    {
        let entry = CacheEntry::new(data, now_ms, ttl_ms);
        let ghost key = mint@;
        let ghost before = self.entries@;
        match self.position(mint.as_str()) {
            Some(i) => {
                self.entries.set(i, (mint, entry));
                proof {
                    let after = self.entries@;
                    assert forall|a: int, b: int| 0 <= a < b < after.len() implies (#[trigger] after[a]).0@ != (#[trigger] after[b]).0@ by {
                        if a != i && b != i {
                            assert(after[a] == before[a] && after[b] == before[b]);
                        } else if a == i {
                            assert(after[b] == before[b]);
                            assert(before[a].0@ != before[b].0@);
                        } else {
                            assert(after[a] == before[a]);
                            assert(before[a].0@ != before[b].0@);
                        }
                    }
                    assert(after[i as int].0@ == key);
                    let j = choose|j: int| 0 <= j < after.len() && (#[trigger] after[j]).0@ == key;
                    if j != i {
                        assert(after[j] == before[j]);
                        if j < i {
                            assert(before[j].0@ != before[i as int].0@);
                        } else {
                            assert(before[i as int].0@ != before[j].0@);
                        }
                    }
                    assert forall|k: Seq<char>| k != key implies cache_lookup(after, k) == cache_lookup(before, k) by {
                        assert forall|m: int| 0 <= m < after.len() implies ((#[trigger] after[m]).0@ == k) == (before[m].0@ == k) by {
                            if m == i {
                                assert(before[m].0@ == key);
                            } else {
                                assert(after[m] == before[m]);
                            }
                        }
                        if exists|m: int| 0 <= m < before.len() && (#[trigger] before[m]).0@ == k {
                            let m1 = choose|m: int| 0 <= m < before.len() && (#[trigger] before[m]).0@ == k;
                            assert(after[m1].0@ == k);
                            let m2 = choose|m: int| 0 <= m < after.len() && (#[trigger] after[m]).0@ == k;
                            assert(m1 != i);
                            assert(m2 != i);
                            if m1 != m2 {
                                assert(before[m2].0@ == k);
                                if m1 < m2 {
                                    assert(before[m1].0@ != before[m2].0@);
                                } else {
                                    assert(before[m2].0@ != before[m1].0@);
                                }
                            }
                            assert(after[m2] == before[m2]);
                        }
                    }
                }
            },
            None => {
                self.entries.push((mint, entry));
                proof {
                    let after = self.entries@;
                    let n = before.len() as int;
                    assert forall|a: int, b: int| 0 <= a < b < after.len() implies (#[trigger] after[a]).0@ != (#[trigger] after[b]).0@ by {
                        assert(after[a] == before[a]);
                        if b < n {
                            assert(after[b] == before[b]);
                        }
                    }
                    assert(after[n].0@ == key);
                    let j = choose|j: int| 0 <= j < after.len() && (#[trigger] after[j]).0@ == key;
                    if j != n {
                        assert(after[j] == before[j]);
                    }
                    assert forall|k: Seq<char>| k != key implies cache_lookup(after, k) == cache_lookup(before, k) by {
                        assert forall|m: int| 0 <= m < before.len() implies (#[trigger] after[m]) == before[m] by {}
                        if exists|m: int| 0 <= m < after.len() && (#[trigger] after[m]).0@ == k {
                            let m2 = choose|m: int| 0 <= m < after.len() && (#[trigger] after[m]).0@ == k;
                            assert(m2 != n);
                            assert(before[m2].0@ == k);
                            let m1 = choose|m: int| 0 <= m < before.len() && (#[trigger] before[m]).0@ == k;
                            if m1 != m2 {
                                if m1 < m2 {
                                    assert(before[m1].0@ != before[m2].0@);
                                } else {
                                    assert(before[m2].0@ != before[m1].0@);
                                }
                            }
                        } else {
                            assert forall|m: int| 0 <= m < before.len() implies (#[trigger] before[m]).0@ != k by {
                                assert(after[m] == before[m]);
                            }
                        }
                    }
                }
            },
        }
    }
}

/// A read after a write gives back what was written while the entry lives, and nothing once it
/// has expired.
pub proof fn lemma_cache_read_after_write(entry: CacheEntry<SupplyInfo>, data: SupplyInfo, now_ms: u64, ttl_ms: u64, read_ms: u64)
    requires
        entry == (CacheEntry { data, expires_at_ms: (now_ms + ttl_ms) as u64 }),
        now_ms + ttl_ms <= u64::MAX,
    ensures
        read_ms <= now_ms + ttl_ms ==> cache_answer(Some(entry), read_ms) == Some(data),
        read_ms > now_ms + ttl_ms ==> cache_answer(Some(entry), read_ms) is None,
{
}

/// Round-robin selection over a fixed number of RPC endpoints.
pub struct RpcRotation {
    pub endpoint_count: usize,
    pub current: usize,
}

impl RpcRotation {
    /// The cursor stays on an endpoint.
    pub open spec fn wf(&self) -> bool {
        self.endpoint_count == 0 || self.current < self.endpoint_count
    }

    /// A rotation over `endpoint_count` endpoints, starting at the first.
    pub fn new(endpoint_count: usize) -> (r: Self)
        ensures
            r.wf(),
            r.endpoint_count == endpoint_count,
            r.current == 0,
    {
        RpcRotation { endpoint_count, current: 0 }
    }

    /// The index of the next endpoint to use, `None` when there is none; the cursor moves on by
    /// one, wrapping around.
    pub fn next_index(&mut self) -> (r: Option<usize>)
        requires
            old(self).wf(),
        ensures
            final(self).wf(),
            final(self).endpoint_count == old(self).endpoint_count,
            old(self).endpoint_count == 0 ==> r is None && final(self).current == old(self).current,
            old(self).endpoint_count > 0 ==> r == Some(old(self).current)
                && final(self).current == (old(self).current + 1) % (old(self).endpoint_count as int),
    {
        if self.endpoint_count == 0 {
            return None;
        }
        let index = self.current;
        self.current = (self.current + 1) % self.endpoint_count;
        Some(index)
    }
}

/// Calls per second allowed against the RPC endpoints: the configured rate, at least one.
pub fn rpc_quota_per_second(rate_limit_requests_per_second: u32) -> (r: u32)
    ensures
        r >= 1,
        r == if rate_limit_requests_per_second >= 1 { rate_limit_requests_per_second } else { 1 },
{
    if rate_limit_requests_per_second >= 1 { rate_limit_requests_per_second } else { 1 }
}

/// Calls per second allowed against outside HTTP APIs: half the configured rate, at least one.
pub fn api_quota_per_second(rate_limit_requests_per_second: u32) -> (r: u32)
    ensures
        r >= 1,
        r == if rate_limit_requests_per_second / 2 >= 1 { rate_limit_requests_per_second / 2 } else { 1 },
{
    let half = rate_limit_requests_per_second / 2;
    if half >= 1 { half } else { 1 }
}


/// Why a mint account could not be read.
#[derive(Debug, Clone, Copy, PartialEq, Eq, Structural)]
pub enum MintParseError {
    /// The account holds fewer than 45 bytes (the length is given)
    InvalidLength(usize),
}

/// Supply and decimals of a mint account: the little-endian `u64` at bytes 36..44 and the byte
/// at 44, or an error for an account shorter than 45 bytes.
pub open spec fn spec_parse_mint_supply(data: Seq<u8>) -> Result<SupplyInfo, MintParseError> {
    if data.len() < 45 {
        Err(MintParseError::InvalidLength(data.len() as usize))
    } else {
        Ok((spec_u64_from_le_bytes(data.subrange(36, 44)), data[44]))
    }
}

/// Read the supply and decimals of an SPL token mint account.
pub fn parse_mint_supply(data: &[u8]) -> (r: Result<SupplyInfo, MintParseError>)
    ensures
        r == spec_parse_mint_supply(data@),
{
    if data.len() < 45 {
        return Err(MintParseError::InvalidLength(data.len()));
    }
    let supply_bytes = slice_subrange(data, 36, 44);
    let supply = u64_from_le_bytes(supply_bytes);
    Ok((supply, data[44]))
}

/// Why the URI could not be read from a metadata account.
#[derive(Debug, Clone, Copy, PartialEq, Eq, Structural)]
pub enum MetadataError {
    /// The account holds fewer than 100 bytes
    TooShort,
    /// The name length lies past the end of the data
    NameLengthUnreadable,
    /// The symbol length lies past the end of the data
    SymbolLengthUnreadable,
    /// The URI length lies past the end of the data
    UriLengthUnreadable,
    /// The URI runs past the end of the data
    UriOutOfBounds,
    /// The URI bytes are not UTF-8
    InvalidUtf8,
}

/// The little-endian `u32` at `at`.
pub open spec fn u32_at(data: Seq<u8>, at: int) -> int {
    spec_u32_from_le_bytes(data.subrange(at, at + 4)) as int
}

/// The URI bytes of a metadata account: after the key, update authority and mint (65 bytes), a
/// length-prefixed name and symbol are skipped and a length-prefixed URI is read.
pub open spec fn spec_uri_bytes(data: Seq<u8>) -> Result<Seq<u8>, MetadataError> {
    let len = data.len() as int;
    let name_at = 65int;
    let symbol_at = name_at + 4 + u32_at(data, name_at);
    let uri_at = symbol_at + 4 + u32_at(data, symbol_at);
    let start = uri_at + 4;
    let uri_len = u32_at(data, uri_at);
    if len < 100 {
        Err(MetadataError::TooShort)
    } else if name_at + 4 > len {
        Err(MetadataError::NameLengthUnreadable)
    } else if symbol_at + 4 > len {
        Err(MetadataError::SymbolLengthUnreadable)
    } else if uri_at + 4 > len {
        Err(MetadataError::UriLengthUnreadable)
    } else if start + uri_len > len {
        Err(MetadataError::UriOutOfBounds)
    } else {
        Ok(data.subrange(start, start + uri_len))
    }
}

/// `s` without its trailing NUL characters.
pub open spec fn trim_trailing_nul(s: Seq<char>) -> Seq<char>
    decreases s.len(),
{
    if s.len() > 0 && s.last() == '\0' { trim_trailing_nul(s.drop_last()) } else { s }
}

/// The URI of a metadata account, decoded as UTF-8 and without trailing NUL characters.
pub open spec fn spec_extract_uri(data: Seq<u8>) -> Result<Seq<char>, MetadataError> {
    match spec_uri_bytes(data) {
        Ok(bytes) => if valid_utf8(bytes) { Ok(trim_trailing_nul(decode_utf8(bytes))) } else { Err(MetadataError::InvalidUtf8) },
        Err(e) => Err(e),
    }
}

/// `String::from_utf8`: the string the bytes encode, or nothing when they are not UTF-8.
#[verifier::external_body]
fn string_from_utf8(bytes: Vec<u8>) -> (r: Option<String>)
    ensures
        r is Some <==> valid_utf8(bytes@),
        r matches Some(s) ==> s@ == decode_utf8(bytes@),
{
    String::from_utf8(bytes).ok()
}

/// The little-endian `u32` at `at`, widened.
fn read_u32_le(data: &[u8], at: usize) -> (r: u64)
    requires
        at + 4 <= data.len(),
    ensures
        r == u32_at(data@, at as int),
{
    let end = at + 4;
    let bytes = slice_subrange(data, at, end);
    u32_from_le_bytes(bytes) as u64
}

/// Copy of `data[start..end]`.
fn copy_bytes(data: &[u8], start: usize, end: usize) -> (r: Vec<u8>)
    requires
        start <= end <= data@.len(),
    ensures
        r@ == data@.subrange(start as int, end as int),
{
    let mut out: Vec<u8> = Vec::new();
    let mut p = start;
    while p < end
        invariant
            start <= p <= end <= data@.len(),
            out@ == data@.subrange(start as int, p as int),
        decreases end - p,
    {
        out.push(data[p]);
        proof {
            assert(out@ =~= data@.subrange(start as int, p as int + 1));
        }
        p = p + 1;
    }
    out
}

/// `s` without its trailing NUL characters.
fn trim_nul_end(s: String) -> (r: String)
    ensures
        r@ == trim_trailing_nul(s@),
{
    let n = s.as_str().unicode_len();
    let mut end: usize = n;
    proof {
        assert(s@.subrange(0, n as int) =~= s@);
    }
    while end > 0 && s.as_str().get_char(end - 1) == '\0'
        invariant
            n == s@.len(),
            end <= n,
            trim_trailing_nul(s@.subrange(0, end as int)) == trim_trailing_nul(s@),
        decreases end,
    {
        proof {
            assert(s@.subrange(0, end as int).drop_last() =~= s@.subrange(0, end as int - 1));
        }
        end = end - 1;
    }
    proof {
        let t = s@.subrange(0, end as int);
        if end > 0 {
            assert(t.last() == s@[end - 1]);
        }
        assert(trim_trailing_nul(t) == t);
    }
    s.as_str().substring_char(0, end).to_owned()
}

/// Extract the URI from the data of a metadata account.
pub fn extract_uri_from_metadata(data: &[u8]) -> (r: Result<String, MetadataError>)
    ensures
        match spec_extract_uri(data@) {
            Ok(uri) => r matches Ok(s) && s@ == uri,
            Err(e) => r == Err::<String, MetadataError>(e),
        },
{
    let len = data.len() as u64;
    if len < 100 {
        return Err(MetadataError::TooShort);
    }
    let mut offset: u64 = 65;
    if offset + 4 > len {
        return Err(MetadataError::NameLengthUnreadable);
    }
    let name_len = read_u32_le(data, offset as usize);
    offset = offset + 4 + name_len;
    if offset + 4 > len {
        return Err(MetadataError::SymbolLengthUnreadable);
    }
    let symbol_len = read_u32_le(data, offset as usize);
    offset = offset + 4 + symbol_len;
    if offset + 4 > len {
        return Err(MetadataError::UriLengthUnreadable);
    }
    let uri_len = read_u32_le(data, offset as usize);
    offset = offset + 4;
    if offset + uri_len > len {
        return Err(MetadataError::UriOutOfBounds);
    }
    let uri_bytes = copy_bytes(data, offset as usize, (offset + uri_len) as usize);
    match string_from_utf8(uri_bytes) {
        Some(uri) => Ok(trim_nul_end(uri)),
        None => Err(MetadataError::InvalidUtf8),
    }
}

/// Balance held by one token account.
pub struct TokenBalance {
    /// Owner public key (32 bytes)
    pub owner: Vec<u8>,
    /// Owner address, base58
    pub owner_address: String,
    /// Token amount
    pub amount: u64,
}

/// A token account's owner (bytes 32..64) and amount (little-endian `u64` at 64..72), when the
/// account holds at least 72 bytes.
pub open spec fn spec_token_account(data: Seq<u8>) -> Option<(Seq<u8>, u64)> {
    if data.len() < 72 {
        None
    } else {
        Some((data.subrange(32, 64), spec_u64_from_le_bytes(data.subrange(64, 72))))
    }
}

/// Read the owner and amount of a token account.
pub fn parse_token_account(data: &[u8]) -> (r: Option<TokenBalance>)
    ensures
        match spec_token_account(data@) {
            Some((owner, amount)) => r matches Some(b) && b.owner@ == owner && b.amount == amount
                && b.owner_address@ == spec_address_text(owner),
            None => r is None,
        },
{
    if data.len() < 72 {
        return None;
    }
    let owner = copy_bytes(data, 32, 64);
    let owner_address = pubkey_to_string(owner.as_slice());
    let amount = u64_from_le_bytes(slice_subrange(data, 64, 72));
    Some(TokenBalance { owner, owner_address, amount })
}

/// The holders among a list of token accounts, in order: every readable account with a positive
/// amount.
pub open spec fn spec_holders(accounts: Seq<Vec<u8>>) -> Seq<(Seq<u8>, u64)>
    decreases accounts.len(),
{
    if accounts.len() == 0 {
        Seq::empty()
    } else {
        let prev = spec_holders(accounts.drop_last());
        match spec_token_account(accounts.last()@) {
            Some(h) => if h.1 > 0 { prev.push(h) } else { prev },
            None => prev,
        }
    }
}

/// The holders among a list of token accounts: readable accounts with a positive amount.
pub fn collect_holders(accounts: &Vec<Vec<u8>>) -> (r: Vec<TokenBalance>)
    ensures
        r@.len() == spec_holders(accounts@).len(),
        forall|k: int| 0 <= k < r@.len() ==> (#[trigger] r@[k]).owner@ == spec_holders(accounts@)[k].0
            && r@[k].amount == spec_holders(accounts@)[k].1
            && r@[k].owner_address@ == spec_address_text(spec_holders(accounts@)[k].0),
{
    let mut out: Vec<TokenBalance> = Vec::new();
    let mut i: usize = 0;
    while i < accounts.len()
        invariant
            i <= accounts@.len(),
            out@.len() == spec_holders(accounts@.take(i as int)).len(),
            forall|k: int| 0 <= k < out@.len() ==> (#[trigger] out@[k]).owner@ == spec_holders(accounts@.take(i as int))[k].0
                && out@[k].amount == spec_holders(accounts@.take(i as int))[k].1
                && out@[k].owner_address@ == spec_address_text(spec_holders(accounts@.take(i as int))[k].0),
        decreases accounts@.len() - i,
    {
        proof {
            assert(accounts@.take(i as int + 1).drop_last() =~= accounts@.take(i as int));
            assert(accounts@.take(i as int + 1).last() == accounts@[i as int]);
        }
        match parse_token_account(accounts[i].as_slice()) {
            Some(b) => {
                if b.amount > 0 {
                    out.push(b);
                }
            },
            None => {},
        }
        i = i + 1;
    }
    proof {
        assert(accounts@.take(i as int) =~= accounts@);
    }
    out
}

/// Holder `a` comes before holder `b` when it holds more, or as much and was listed first.
pub open spec fn balance_before(amounts: Seq<u64>, a: int, b: int) -> bool {
    amounts[a] > amounts[b] || (amounts[a] == amounts[b] && a < b)
}

/// The positions of `amounts` by amount descending, ties in listed order (a stable sort).
pub fn order_by_balance(amounts: &Vec<u64>) -> (order: Vec<usize>)
    ensures
        order@.len() == amounts@.len(),
        forall|i: int| 0 <= i < order@.len() ==> (#[trigger] order@[i]) < amounts@.len(),
        forall|i: int, j: int| 0 <= i < j < order@.len() ==> balance_before(amounts@, #[trigger] order@[i] as int, #[trigger] order@[j] as int),
{
    let n = amounts.len();
    let mut order: Vec<usize> = Vec::new();
    let mut k: usize = 0;
    while k < n
        invariant
            k <= n,
            n == amounts@.len(),
            order@.len() == k,
            forall|i: int| 0 <= i < order@.len() ==> (#[trigger] order@[i]) < k,
            forall|i: int, j: int| 0 <= i < j < order@.len() ==> balance_before(amounts@, #[trigger] order@[i] as int, #[trigger] order@[j] as int),
        decreases n - k,
    {
        let v = amounts[k];
        let mut pos: usize = 0;
        while pos < order.len() && amounts[order[pos]] >= v
            invariant
                pos <= order@.len(),
                n == amounts@.len(),
                k < n,
                v == amounts@[k as int],
                forall|i: int| 0 <= i < order@.len() ==> (#[trigger] order@[i]) < k,
                forall|i: int| 0 <= i < pos ==> amounts@[(#[trigger] order@[i]) as int] >= v,
            decreases order@.len() - pos,
        {
            pos = pos + 1;
        }
        let ghost before = order@;
        proof {
            assert forall|i: int| pos <= i < before.len() implies amounts@[(#[trigger] before[i]) as int] < v by {
                if pos < before.len() && i > pos {
                    assert(balance_before(amounts@, before[pos as int] as int, before[i] as int));
                }
            }
        }
        order.insert(pos, k);
        proof {
            let after = order@;
            assert forall|i: int| 0 <= i < after.len() implies (#[trigger] after[i]) < k + 1 by {
                if i < pos {
                    assert(after[i] == before[i]);
                } else if i > pos {
                    assert(after[i] == before[i - 1]);
                }
            }
            assert forall|i: int, j: int| 0 <= i < j < after.len() implies balance_before(amounts@, #[trigger] after[i] as int, #[trigger] after[j] as int) by {
                if j < pos {
                    assert(after[i] == before[i] && after[j] == before[j]);
                } else if j == pos {
                    assert(after[i] == before[i]);
                } else if i < pos {
                    assert(after[i] == before[i] && after[j] == before[j - 1]);
                } else if i == pos {
                    assert(after[j] == before[j - 1]);
                } else {
                    assert(after[i] == before[i - 1] && after[j] == before[j - 1]);
                }
            }
        }
        k = k + 1;
    }
    order
}

/// Whether some 32-byte window of `data` equals `mint`.
pub open spec fn mentions_mint(data: Seq<u8>, mint: Seq<u8>) -> bool {
    exists|i: int| 0 <= i && i + 32 <= data.len() && #[trigger] data.subrange(i, i + 32) == mint
}

/// Whether a pool account's data holds the 32 bytes of `mint` anywhere.
pub fn account_mentions_mint(data: &[u8], mint: &[u8]) -> (r: bool)
    requires
        mint@.len() == 32,
    ensures
        r == mentions_mint(data@, mint@),
{
    if data.len() < 32 {
        return false;
    }
    let n = data.len();
    let last = n - 32;
    let mut i: usize = 0;
    while i <= last
        invariant
            n == data@.len(),
            last + 32 == data@.len(),
            mint@.len() == 32,
            i <= last + 1,
            forall|k: int| 0 <= k < i ==> #[trigger] data@.subrange(k, k + 32) != mint@,
        decreases last + 1 - i,
    {
        let mut j: usize = 0;
        while j < 32 && data[i + j] == mint[j]
            invariant
                i <= last,
                n == data@.len(),
                last + 32 == data@.len(),
                mint@.len() == 32,
                j <= 32,
                forall|m: int| 0 <= m < j ==> data@[i + m] == mint@[m],
            decreases 32 - j,
        {
            j = j + 1;
        }
        if j == 32 {
            proof {
                assert(data@.subrange(i as int, i as int + 32) =~= mint@);
            }
            return true;
        }
        proof {
            assert(data@.subrange(i as int, i as int + 32)[j as int] != mint@[j as int]);
        }
        i = i + 1;
    }
    proof {
        assert forall|k: int| 0 <= k && k + 32 <= data@.len() implies #[trigger] data@.subrange(k, k + 32) != mint@ by {
            assert(k < i);
        }
    }
    false
}

/// Positions of the pool accounts (at least 752 bytes) that hold the mint.
pub fn raydium_pool_indices(accounts: &Vec<Vec<u8>>, mint: &[u8]) -> (r: Vec<usize>)
    requires
        mint@.len() == 32,
    ensures
        forall|k: int| 0 <= k < r@.len() ==> (#[trigger] r@[k]) < accounts@.len()
            && accounts@[r@[k] as int]@.len() >= 752 && mentions_mint(accounts@[r@[k] as int]@, mint@),
        forall|i: int| 0 <= i < accounts@.len() && accounts@[i]@.len() >= 752 && mentions_mint(accounts@[i]@, mint@)
            ==> r@.contains(i as usize),
        forall|a: int, b: int| 0 <= a < b < r@.len() ==> #[trigger] r@[a] < #[trigger] r@[b],
{
    let mut out: Vec<usize> = Vec::new();
    let mut i: usize = 0;
    while i < accounts.len()
        invariant
            mint@.len() == 32,
            i <= accounts@.len(),
            forall|k: int| 0 <= k < out@.len() ==> (#[trigger] out@[k]) < i
                && accounts@[out@[k] as int]@.len() >= 752 && mentions_mint(accounts@[out@[k] as int]@, mint@),
            forall|m: int| 0 <= m < i && accounts@[m]@.len() >= 752 && mentions_mint(accounts@[m]@, mint@)
                ==> out@.contains(m as usize),
            forall|a: int, b: int| 0 <= a < b < out@.len() ==> #[trigger] out@[a] < #[trigger] out@[b],
        decreases accounts@.len() - i,
    {
        let data = accounts[i].as_slice();
        if data.len() >= 752 && account_mentions_mint(data, mint) {
            let ghost prev = out@;
            out.push(i);
            proof {
                assert forall|m: int| 0 <= m < i + 1 && accounts@[m]@.len() >= 752 && mentions_mint(accounts@[m]@, mint@)
                    implies out@.contains(m as usize) by {
                    if m < i {
                        let k = choose|k: int| 0 <= k < prev.len() && prev[k] == m as usize;
                        assert(out@[k] == m as usize);
                    } else {
                        assert(out@[prev.len() as int] == m as usize);
                    }
                }
            }
        }
        i = i + 1;
    }
    out
}

/// Position of the first pool account that holds the mint.
pub fn first_pool_index(accounts: &Vec<Vec<u8>>, mint: &[u8]) -> (r: Option<usize>)
    requires
        mint@.len() == 32,
    ensures
        match r {
            Some(i) => i < accounts@.len() && mentions_mint(accounts@[i as int]@, mint@)
                && forall|m: int| 0 <= m < i ==> !mentions_mint(#[trigger] accounts@[m]@, mint@),
            None => forall|m: int| 0 <= m < accounts@.len() ==> !mentions_mint(#[trigger] accounts@[m]@, mint@),
        },
{
    let mut i: usize = 0;
    while i < accounts.len()
        invariant
            mint@.len() == 32,
            i <= accounts@.len(),
            forall|m: int| 0 <= m < i ==> !mentions_mint(#[trigger] accounts@[m]@, mint@),
        decreases accounts@.len() - i,
    {
        if account_mentions_mint(accounts[i].as_slice(), mint) {
            return Some(i);
        }
        i = i + 1;
    }
    None
}


/// The Raydium pools (positions in `accounts`) that hold the mint named by its address text, or
/// why the text names no mint.
pub fn raydium_pools_for_mint(accounts: &Vec<Vec<u8>>, mint: &str) -> (r: Result<Vec<usize>, AddressError>)
    ensures
        match spec_parse_address(mint@) {
            None => r matches Err(e) && (e == AddressError::WrongSize || e == AddressError::Invalid),
            Some(m) => r matches Ok(v) && {
                &&& forall|k: int| 0 <= k < v@.len() ==> (#[trigger] v@[k]) < accounts@.len()
                    && accounts@[v@[k] as int]@.len() >= 752 && mentions_mint(accounts@[v@[k] as int]@, m)
                &&& forall|i: int| 0 <= i < accounts@.len() && accounts@[i]@.len() >= 752 && mentions_mint(accounts@[i]@, m)
                    ==> v@.contains(i as usize)
                &&& forall|a: int, b: int| 0 <= a < b < v@.len() ==> #[trigger] v@[a] < #[trigger] v@[b]
            },
        },
{
    let m = match parse_address(mint) {
        Ok(m) => m,
        Err(e) => return Err(e),
    };
    Ok(raydium_pool_indices(accounts, m.as_slice()))
}

/// The first Orca pool (position in `accounts`) that holds the mint named by its address text,
/// or why the text names no mint.
pub fn orca_pool_for_mint(accounts: &Vec<Vec<u8>>, mint: &str) -> (r: Result<Option<usize>, AddressError>)
    ensures
        match spec_parse_address(mint@) {
            None => r matches Err(e) && (e == AddressError::WrongSize || e == AddressError::Invalid),
            Some(m) => r matches Ok(found) && match found {
                Some(i) => i < accounts@.len() && mentions_mint(accounts@[i as int]@, m)
                    && forall|j: int| 0 <= j < i ==> !mentions_mint(#[trigger] accounts@[j]@, m),
                None => forall|j: int| 0 <= j < accounts@.len() ==> !mentions_mint(#[trigger] accounts@[j]@, m),
            },
        },
{
    let m = match parse_address(mint) {
        Ok(m) => m,
        Err(e) => return Err(e),
    };
    Ok(first_pool_index(accounts, m.as_slice()))
}

/// Creator's token holdings and sell activity.
pub struct CreatorHoldings {
    pub initial_balance: u64,
    pub current_balance: u64,
    pub first_sell_timestamp: Option<u64>,
    pub sell_transactions: u32,
}

impl Default for CreatorHoldings {
    fn default() -> (r: Self)
        ensures
            r.initial_balance == 0,
            r.current_balance == 0,
            r.first_sell_timestamp is None,
            r.sell_transactions == 0,
    {
        CreatorHoldings { initial_balance: 0, current_balance: 0, first_sell_timestamp: None, sell_transactions: 0 }
    }
}

/// What the creator-history scan reads of one signature.
pub struct SignatureSummary {
    /// Block time (seconds since the Unix epoch), when known
    pub block_time: Option<i64>,
    /// Whether the transaction carries a memo
    pub has_memo: bool,
    /// Whether the transaction failed
    pub failed: bool,
}

/// Most signatures of the creator's history that are examined.
pub const CREATOR_HISTORY_LIMIT: usize = 100;

/// Tokens assumed sold per sell transaction when estimating the initial balance.
pub const TOKENS_PER_SELL: u64 = 1_000_000;

/// A signature counts as a sell when it has a block time and carries a memo or succeeded.
pub open spec fn is_sell(sig: SignatureSummary) -> bool {
    sig.block_time is Some && (sig.has_memo || !sig.failed)
}

/// Number of sells among the first `n` signatures.
pub open spec fn sell_count(sigs: Seq<SignatureSummary>, n: int) -> int
    decreases n,
{
    if n <= 0 { 0 } else { sell_count(sigs, n - 1) + if is_sell(sigs[n - 1]) { 1int } else { 0int } }
}

/// Block time of the first sell among the first `n` signatures.
pub open spec fn first_sell(sigs: Seq<SignatureSummary>, n: int) -> Option<u64>
    decreases n,
{
    if n <= 0 {
        None
    } else {
        match first_sell(sigs, n - 1) {
            Some(t) => Some(t),
            None => if is_sell(sigs[n - 1]) { Some(sigs[n - 1].block_time->0 as u64) } else { None },
        }
    }
}

/// Number of signatures that the scan examines.
pub open spec fn scanned(sigs: Seq<SignatureSummary>) -> int {
    if sigs.len() < CREATOR_HISTORY_LIMIT { sigs.len() as int } else { CREATOR_HISTORY_LIMIT as int }
}

proof fn lemma_sell_count_bounded(sigs: Seq<SignatureSummary>, n: int)
    requires
        0 <= n,
    ensures
        0 <= sell_count(sigs, n) <= n,
    decreases n,
{
    if n > 0 {
        lemma_sell_count_bounded(sigs, n - 1);
    }
}

/// The creator's holdings from the current balance and the recent signatures of the creator:
/// sells among the first hundred signatures, the block time of the first of them, and an initial
/// balance estimated as the current one plus a million tokens per sell.
pub fn creator_holdings_from_history(current_balance: u64, sigs: &Vec<SignatureSummary>) -> (r: CreatorHoldings)
    requires
        current_balance + sell_count(sigs@, scanned(sigs@)) * TOKENS_PER_SELL <= u64::MAX,
    ensures
        r.current_balance == current_balance,
        r.sell_transactions == sell_count(sigs@, scanned(sigs@)),
        r.first_sell_timestamp == first_sell(sigs@, scanned(sigs@)),
        r.initial_balance == current_balance + sell_count(sigs@, scanned(sigs@)) * TOKENS_PER_SELL,
{
    let limit = if sigs.len() < CREATOR_HISTORY_LIMIT { sigs.len() } else { CREATOR_HISTORY_LIMIT };
    let mut sells: u32 = 0;
    let mut first: Option<u64> = None;
    let mut i: usize = 0;
    while i < limit
        invariant
            limit == scanned(sigs@),
            limit <= CREATOR_HISTORY_LIMIT,
            limit <= sigs@.len(),
            i <= limit,
            sells == sell_count(sigs@, i as int),
            first == first_sell(sigs@, i as int),
        decreases limit - i,
    {
        proof {
            lemma_sell_count_bounded(sigs@, i as int);
        }
        let sig = &sigs[i];
        match sig.block_time {
            Some(block_time) => {
                if sig.has_memo || !sig.failed {
                    sells = sells + 1;
                    if first.is_none() {
                        first = Some(block_time as u64);
                    }
                }
            },
            None => {},
        }
        i = i + 1;
    }
    proof {
        lemma_sell_count_bounded(sigs@, limit as int);
        assert(sells as u64 * TOKENS_PER_SELL <= 100 * TOKENS_PER_SELL) by (nonlinear_arith)
            requires sells <= 100;
    }
    let initial_balance = current_balance + sells as u64 * TOKENS_PER_SELL;
    CreatorHoldings { initial_balance, current_balance, first_sell_timestamp: first, sell_transactions: sells }
}

/// Integer tally of a volume sample.
pub struct VolumeTally {
    /// Number of signatures found (truncated to 32 bits)
    pub transaction_count: u32,
    /// Number of signatures sampled
    pub sample_size: usize,
    /// Sampled transactions that succeeded
    pub successful: u32,
    pub buy_count: u32,
    pub sell_count: u32,
}

/// Most signatures sampled for volume estimation.
pub const VOLUME_SAMPLE_LIMIT: usize = 50;

/// Number of sampled transactions that succeeded among the first `n`.
pub open spec fn success_count(ok: Seq<bool>, n: int) -> int
    decreases n,
{
    if n <= 0 { 0 } else { success_count(ok, n - 1) + if ok[n - 1] { 1int } else { 0int } }
}

proof fn lemma_success_count_bounded(ok: Seq<bool>, n: int)
    requires
        0 <= n,
    ensures
        0 <= success_count(ok, n) <= n,
    decreases n,
{
    if n > 0 {
        lemma_success_count_bounded(ok, n - 1);
    }
}

/// The number of signatures sampled out of `signature_count`.
pub fn volume_sample_size(signature_count: usize) -> (r: usize)
    ensures
        r == if signature_count < VOLUME_SAMPLE_LIMIT { signature_count } else { VOLUME_SAMPLE_LIMIT },
{
    if signature_count < VOLUME_SAMPLE_LIMIT { signature_count } else { VOLUME_SAMPLE_LIMIT }
}

/// Tally a volume sample: `sample_ok` tells, for each sampled signature, whether its transaction
/// was fetched and succeeded. Every success counts as a buy when the sample size is even and as a
/// sell otherwise.
pub fn tally_volume(signature_count: usize, sample_ok: &Vec<bool>) -> (r: VolumeTally)
    requires
        sample_ok@.len() == if signature_count < VOLUME_SAMPLE_LIMIT { signature_count } else { VOLUME_SAMPLE_LIMIT },
    ensures
        r.transaction_count == signature_count as u32,
        r.sample_size == sample_ok@.len(),
        r.successful == success_count(sample_ok@, sample_ok@.len() as int),
        r.sample_size % 2 == 0 ==> r.buy_count == r.successful && r.sell_count == 0,
        r.sample_size % 2 == 1 ==> r.sell_count == r.successful && r.buy_count == 0,
{
    let sample_size = sample_ok.len();
    let mut successful: u32 = 0;
    let mut i: usize = 0;
    while i < sample_size
        invariant
            sample_size == sample_ok@.len(),
            sample_size <= VOLUME_SAMPLE_LIMIT,
            i <= sample_size,
            successful == success_count(sample_ok@, i as int),
        decreases sample_size - i,
    {
        proof {
            lemma_success_count_bounded(sample_ok@, i as int);
        }
        if sample_ok[i] {
            successful = successful + 1;
        }
        i = i + 1;
    }
    let (buy_count, sell_count) = if sample_size % 2 == 0 { (successful, 0u32) } else { (0u32, successful) };
    VolumeTally {
        transaction_count: signature_count as u32,
        sample_size,
        successful,
        buy_count,
        sell_count,
    }
}

/// One performance sample of the network.
pub struct PerformanceSample {
    pub num_transactions: u64,
    pub sample_period_secs: u16,
}

/// Sum of the whole transactions per second of the first `n` samples.
pub open spec fn tps_total(samples: Seq<PerformanceSample>, n: int) -> int
    decreases n,
{
    if n <= 0 {
        0
    } else {
        tps_total(samples, n - 1) + samples[n - 1].num_transactions as int / samples[n - 1].sample_period_secs as int
    }
}

proof fn lemma_tps_total_monotone(samples: Seq<PerformanceSample>, m: int, n: int)
    requires
        0 <= m <= n <= samples.len(),
        forall|i: int| 0 <= i < samples.len() ==> (#[trigger] samples[i]).sample_period_secs > 0,
    ensures
        0 <= tps_total(samples, m) <= tps_total(samples, n),
    decreases n - m,
{
    if m < n {
        lemma_tps_total_monotone(samples, m, n - 1);
    } else {
        lemma_tps_total_nonneg(samples, m);
    }
}

proof fn lemma_tps_total_nonneg(samples: Seq<PerformanceSample>, n: int)
    requires
        0 <= n <= samples.len(),
        forall|i: int| 0 <= i < samples.len() ==> (#[trigger] samples[i]).sample_period_secs > 0,
    ensures
        0 <= tps_total(samples, n),
    decreases n,
{
    if n > 0 {
        lemma_tps_total_nonneg(samples, n - 1);
    }
}

/// Total of the per-sample transactions per second (each rounded down).
pub fn total_tps(samples: &Vec<PerformanceSample>) -> (r: u64)
    requires
        forall|i: int| 0 <= i < samples@.len() ==> (#[trigger] samples@[i]).sample_period_secs > 0,
        tps_total(samples@, samples@.len() as int) <= u64::MAX,
    ensures
        r == tps_total(samples@, samples@.len() as int),
{
    let mut total: u64 = 0;
    let mut i: usize = 0;
    while i < samples.len()
        invariant
            i <= samples@.len(),
            forall|k: int| 0 <= k < samples@.len() ==> (#[trigger] samples@[k]).sample_period_secs > 0,
            tps_total(samples@, samples@.len() as int) <= u64::MAX,
            total == tps_total(samples@, i as int),
        decreases samples@.len() - i,
    {
        proof {
            lemma_tps_total_monotone(samples@, i as int + 1, samples@.len() as int);
        }
        let s = &samples[i];
        total = total + s.num_transactions / (s.sample_period_secs as u64);
        i = i + 1;
    }
    total
}

} // verus!
