use h_5n1p3r::chain_data::{
    account_mentions_mint, api_quota_per_second, collect_holders, creator_holdings_from_history,
    extract_uri_from_metadata, first_pool_index, order_by_balance, parse_mint_supply,
    orca_pool_for_mint, parse_token_account, raydium_pool_indices, raydium_pools_for_mint, rpc_quota_per_second, tally_volume, total_tps,
    volume_sample_size, CacheEntry, CreatorHoldings, MetadataError, MintParseError,
    PerformanceSample, RpcRotation, SignatureSummary, SupplyCache,
};

#[test]
fn test_creator_holdings_default() {
    let creator_holdings = CreatorHoldings::default();

    assert_eq!(creator_holdings.initial_balance, 0);
    assert_eq!(creator_holdings.current_balance, 0);
    assert_eq!(creator_holdings.first_sell_timestamp, None);
    assert_eq!(creator_holdings.sell_transactions, 0);
}

#[test]
fn test_cache_entry_expiration() {
    let data = (1000000u64, 9u8);
    let now_ms = 1_700_000_000_000u64;
    let ttl_ms = 10;
    let entry = CacheEntry::new(data, now_ms, ttl_ms);

    assert!(!entry.is_expired(now_ms));
    assert!(!entry.is_expired(now_ms + 10));

    assert!(entry.is_expired(now_ms + 20));
}

#[test]
fn test_cache_get_set() {
    let mut cache = SupplyCache::new();
    let mint = "TestMint".to_string();
    let data = (1000000u64, 9u8);
    let now_ms = 1_700_000_000_000u64;
    let ttl_ms = 60_000;

    assert!(cache.get_token_supply(&mint, now_ms).is_none());

    cache.set_token_supply(mint.clone(), data, now_ms, ttl_ms);

    assert_eq!(cache.get_token_supply(&mint, now_ms), Some(data));
    assert_eq!(cache.get_token_supply(&mint, now_ms + ttl_ms), Some(data));
    assert_eq!(cache.get_token_supply(&mint, now_ms + ttl_ms + 1), None);
    assert_eq!(cache.get_token_supply("OtherMint", now_ms), None);

    // a second write replaces the first
    cache.set_token_supply(mint.clone(), (5, 6), now_ms + 1, ttl_ms);
    assert_eq!(cache.get_token_supply(&mint, now_ms + 2), Some((5, 6)));
}

#[test]
fn test_rpc_client_round_robin() {
    let mut rotation = RpcRotation::new(2);
    assert_eq!(rotation.next_index(), Some(0));
    assert_eq!(rotation.next_index(), Some(1));
    assert_eq!(rotation.next_index(), Some(0));

    let mut none = RpcRotation::new(0);
    assert_eq!(none.next_index(), None);
}

#[test]
fn test_rate_limit_quotas() {
    assert_eq!(rpc_quota_per_second(0), 1);
    assert_eq!(rpc_quota_per_second(20), 20);
    assert_eq!(api_quota_per_second(1), 1);
    assert_eq!(api_quota_per_second(20), 10);
    assert_eq!(api_quota_per_second(21), 10);
}

#[test]
fn test_parse_mint_supply() {
    let mut data = vec![0u8; 82];
    data[36..44].copy_from_slice(&1_000_000_000u64.to_le_bytes());
    data[44] = 9;
    assert_eq!(parse_mint_supply(&data), Ok((1_000_000_000, 9)));

    let short = vec![0u8; 44];
    assert_eq!(parse_mint_supply(&short), Err(MintParseError::InvalidLength(44)));
}

fn metadata_with(name: &str, symbol: &str, uri: &[u8], total_len: usize) -> Vec<u8> {
    let mut data = vec![4u8; 65];
    data.extend_from_slice(&(name.len() as u32).to_le_bytes());
    data.extend_from_slice(name.as_bytes());
    data.extend_from_slice(&(symbol.len() as u32).to_le_bytes());
    data.extend_from_slice(symbol.as_bytes());
    data.extend_from_slice(&(uri.len() as u32).to_le_bytes());
    data.extend_from_slice(uri);
    while data.len() < total_len {
        data.push(0);
    }
    data
}

#[test]
fn test_extract_uri_validation() {
    let invalid_data = vec![0u8; 50];
    let result = extract_uri_from_metadata(&invalid_data);
    assert!(result.is_err());
    assert_eq!(result, Err(MetadataError::TooShort));
}

#[test]
fn test_extract_uri_reads_padded_uri() {
    let mut uri = b"https://example.com/meta.json".to_vec();
    uri.extend_from_slice(&[0, 0, 0]);
    let data = metadata_with("Token", "TKN", &uri, 200);
    assert_eq!(extract_uri_from_metadata(&data), Ok("https://example.com/meta.json".to_string()));
}

#[test]
fn test_extract_uri_errors() {
    // URI length runs past the end
    let mut data = metadata_with("Token", "TKN", b"abc", 120);
    let uri_len_at = 65 + 4 + 5 + 4 + 3;
    data[uri_len_at..uri_len_at + 4].copy_from_slice(&1000u32.to_le_bytes());
    assert_eq!(extract_uri_from_metadata(&data), Err(MetadataError::UriOutOfBounds));

    // symbol length unreadable: name length points past the end
    let mut data = vec![0u8; 120];
    data[65..69].copy_from_slice(&100u32.to_le_bytes());
    assert_eq!(extract_uri_from_metadata(&data), Err(MetadataError::SymbolLengthUnreadable));

    // URI length unreadable
    let mut data = vec![0u8; 100];
    data[65..69].copy_from_slice(&20u32.to_le_bytes());
    data[89..93].copy_from_slice(&5u32.to_le_bytes());
    assert_eq!(extract_uri_from_metadata(&data), Err(MetadataError::UriLengthUnreadable));

    // not UTF-8
    let data = metadata_with("Token", "TKN", &[0xff, 0xfe], 150);
    assert_eq!(extract_uri_from_metadata(&data), Err(MetadataError::InvalidUtf8));
}

fn token_account(owner: u8, amount: u64) -> Vec<u8> {
    let mut data = vec![0u8; 165];
    for b in &mut data[32..64] {
        *b = owner;
    }
    data[64..72].copy_from_slice(&amount.to_le_bytes());
    data
}

#[test]
fn test_token_accounts_and_holder_order() {
    let parsed = parse_token_account(&token_account(7, 500)).unwrap();
    assert_eq!(parsed.owner, vec![7u8; 32]);
    assert_eq!(parsed.owner_address, h_5n1p3r::addresses::address_text(&[7u8; 32]));
    assert_eq!(parsed.amount, 500);
    assert!(parse_token_account(&[0u8; 71]).is_none());

    let accounts = vec![token_account(1, 10), token_account(2, 0), vec![0u8; 10], token_account(3, 30), token_account(4, 10)];
    let holders = collect_holders(&accounts);
    assert_eq!(holders.len(), 3);
    assert_eq!(holders[0].amount, 10);
    assert_eq!(holders[1].amount, 30);
    assert_eq!(holders[2].owner, vec![4u8; 32]);
    assert_eq!(holders[0].owner_address, h_5n1p3r::addresses::address_text(&[1u8; 32]));
    assert_ne!(holders[0].owner_address, holders[1].owner_address);

    let amounts: Vec<u64> = holders.iter().map(|h| h.amount).collect();
    assert_eq!(order_by_balance(&amounts), vec![1, 0, 2]);
}

#[test]
fn test_pool_accounts_mentioning_mint() {
    let mint = [9u8; 32];
    let mut with_mint = vec![0u8; 800];
    with_mint[100..132].copy_from_slice(&mint);
    let mut short_with_mint = vec![0u8; 100];
    short_with_mint[50..82].copy_from_slice(&mint);
    let without = vec![1u8; 800];

    assert!(account_mentions_mint(&with_mint, &mint));
    assert!(!account_mentions_mint(&without, &mint));
    assert!(!account_mentions_mint(&[9u8; 31], &mint));

    let accounts = vec![without.clone(), with_mint.clone(), short_with_mint.clone(), with_mint.clone()];
    assert_eq!(raydium_pool_indices(&accounts, &mint), vec![1, 3]);
    assert_eq!(first_pool_index(&accounts, &mint), Some(1));
    assert_eq!(first_pool_index(&vec![without.clone()], &mint), None);

    let mint_text = h_5n1p3r::addresses::address_text(&mint);
    assert_eq!(raydium_pools_for_mint(&accounts, &mint_text), Ok(vec![1, 3]));
    assert_eq!(orca_pool_for_mint(&accounts, &mint_text), Ok(Some(1)));
    assert_eq!(orca_pool_for_mint(&vec![without], &mint_text), Ok(None));
    assert_eq!(raydium_pools_for_mint(&accounts, "TestMint"), Err(h_5n1p3r::addresses::AddressError::WrongSize));
    assert!(orca_pool_for_mint(&accounts, "0OIl").is_err());
}

#[test]
fn test_creator_sells() {
    let sig = |block_time: Option<i64>, has_memo: bool, failed: bool| SignatureSummary { block_time, has_memo, failed };
    let sigs = vec![
        sig(None, true, false),
        sig(Some(1_700_000_100), false, true),
        sig(Some(1_700_000_200), false, false),
        sig(Some(1_700_000_300), true, true),
    ];
    let holdings = creator_holdings_from_history(5_000, &sigs);
    assert_eq!(holdings.sell_transactions, 2);
    assert_eq!(holdings.first_sell_timestamp, Some(1_700_000_200));
    assert_eq!(holdings.current_balance, 5_000);
    assert_eq!(holdings.initial_balance, 2_005_000);

    let many: Vec<SignatureSummary> = (0..150).map(|i| sig(Some(i), false, false)).collect();
    let holdings = creator_holdings_from_history(0, &many);
    assert_eq!(holdings.sell_transactions, 100);
    assert_eq!(holdings.first_sell_timestamp, Some(0));
}

#[test]
fn test_volume_tally() {
    assert_eq!(volume_sample_size(7), 7);
    assert_eq!(volume_sample_size(120), 50);
    let tally = tally_volume(4, &vec![true, false, true, true]);
    assert_eq!(tally.transaction_count, 4);
    assert_eq!(tally.sample_size, 4);
    assert_eq!(tally.successful, 3);
    assert_eq!(tally.buy_count, 3);
    assert_eq!(tally.sell_count, 0);
    let tally = tally_volume(3, &vec![true, false, true]);
    assert_eq!(tally.buy_count, 0);
    assert_eq!(tally.sell_count, 2);
}

#[test]
fn test_total_tps() {
    let samples = vec![
        PerformanceSample { num_transactions: 120_000, sample_period_secs: 60 },
        PerformanceSample { num_transactions: 100, sample_period_secs: 60 },
    ];
    assert_eq!(total_tps(&samples), 2001);
    assert_eq!(total_tps(&Vec::new()), 0);
}
