use h_5n1p3r::addresses::{
    address_text, metadata_account, parse_address, program_address, program_text, AddressError,
    KnownProgram,
};
use solana_program::pubkey::Pubkey;
use std::str::FromStr;

const WRAPPED_SOL: &str = "So11111111111111111111111111111111111111112";

#[test]
fn test_parse_system_program_address() {
    let bytes = parse_address("11111111111111111111111111111111").unwrap();
    assert_eq!(bytes, vec![0u8; 32]);
    assert_eq!(address_text(&bytes), "11111111111111111111111111111111");
}

#[test]
fn test_parse_and_print_round_trip() {
    let bytes = parse_address(WRAPPED_SOL).unwrap();
    assert_eq!(bytes.len(), 32);
    assert_eq!(bytes, Pubkey::from_str(WRAPPED_SOL).unwrap().to_bytes().to_vec());
    assert_eq!(address_text(&bytes), WRAPPED_SOL);
}

#[test]
fn test_parse_errors() {
    assert_eq!(parse_address("not-base58!"), Err(AddressError::Invalid));
    assert_eq!(parse_address("abc"), Err(AddressError::WrongSize));
    let too_long = "1".repeat(45);
    assert_eq!(parse_address(&too_long), Err(AddressError::WrongSize));
}

#[test]
fn test_known_program_addresses() {
    for p in [KnownProgram::Token, KnownProgram::TokenMetadata, KnownProgram::RaydiumAmm, KnownProgram::OrcaWhirlpool] {
        let bytes = program_address(p).unwrap();
        assert_eq!(address_text(&bytes), program_text(p));
    }
    assert_eq!(program_text(KnownProgram::Token), "TokenkegQfeZyiNwAJbNbGKPFXCWuBvf9Ss623VQ5DA");
}

#[test]
fn test_metadata_account_derivation() {
    let (address, bump) = metadata_account(WRAPPED_SOL).unwrap();
    let program = Pubkey::from_str("metaqbxxUerdq28cj1RbAWkYQm3ybzjb6a8bt518x1s").unwrap();
    let mint = Pubkey::from_str(WRAPPED_SOL).unwrap();
    let (expected, expected_bump) =
        Pubkey::find_program_address(&[b"metadata", program.as_ref(), mint.as_ref()], &program);
    assert_eq!(address, expected.to_bytes().to_vec());
    assert_eq!(bump, expected_bump);
    assert_ne!(address, mint.to_bytes().to_vec());
}

#[test]
fn test_metadata_account_rejects_bad_mint() {
    assert_eq!(metadata_account("TestMint"), Err(AddressError::WrongSize));
    assert_eq!(metadata_account("0OIl"), Err(AddressError::Invalid));
}
