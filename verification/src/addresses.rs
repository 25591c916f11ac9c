//! Solana addresses: base58 text to the 32 bytes of a public key and back, the program
//! addresses the oracle reads from, and the derived address of a mint's metadata account.
use vstd::prelude::*;
use solana_program::pubkey::{ParsePubkeyError, Pubkey};
use std::str::FromStr;

verus! {

/// Why an address could not be read or derived.
#[derive(Debug, Clone, Copy, PartialEq, Eq, Structural)]
pub enum AddressError {
    /// The text does not decode to 32 bytes
    WrongSize,
    /// The text is not base58
    Invalid,
    /// No bump seed gives a valid program address
    NoProgramAddress,
}

/// The 32 bytes that a base58 address names, as `Pubkey::from_str` decodes them; none when the
/// text is not such an address.
pub uninterp spec fn spec_parse_address(text: Seq<char>) -> Option<Seq<u8>>;

/// The base58 text of a 32-byte public key, as `Pubkey`'s `Display` writes it.
pub uninterp spec fn spec_address_text(bytes: Seq<u8>) -> Seq<char>;

/// The program-derived address and bump seed that `Pubkey::try_find_program_address` finds for
/// these seeds and program, if any.
pub uninterp spec fn spec_program_address(seeds: Seq<Seq<u8>>, program_id: Seq<u8>) -> Option<(Seq<u8>, u8)>;

/// `Pubkey::from_str`: decodes a base58 address. Succeeds exactly when the named result is some
/// 32-byte value, and then gives it; which of its two errors a failure reports is left unstated.
#[verifier::external_body]
fn pubkey_from_str(text: &str) -> (r: Result<Vec<u8>, AddressError>)
    ensures
        match spec_parse_address(text@) {
            Some(bytes) => r matches Ok(b) && b@ == bytes && bytes.len() == 32,
            None => r matches Err(e) && (e == AddressError::WrongSize || e == AddressError::Invalid),
        },
{
    match Pubkey::from_str(text) {
        Ok(key) => Ok(key.to_bytes().to_vec()),
        Err(ParsePubkeyError::WrongSize) => Err(AddressError::WrongSize),
        Err(ParsePubkeyError::Invalid) => Err(AddressError::Invalid),
    }
}

/// `Pubkey::to_string`: the base58 text of 32 bytes.
#[verifier::external_body]
pub(crate) fn pubkey_to_string(bytes: &[u8]) -> (r: String)
    requires
        bytes@.len() == 32,
    ensures
        r@ == spec_address_text(bytes@),
{
    let array: [u8; 32] = bytes.try_into().unwrap();
    Pubkey::new_from_array(array).to_string()
}

/// Views of a list of byte strings.
pub open spec fn byte_views(v: Seq<Vec<u8>>) -> Seq<Seq<u8>> {
    v.map_values(|b: Vec<u8>| b@)
}

/// `Pubkey::try_find_program_address`: the first valid program address counting the bump seed
/// down from 255, or none (which `find_program_address` turns into a panic).
#[verifier::external_body]
fn try_find_program_address(seeds: &Vec<Vec<u8>>, program_id: &[u8]) -> (r: Option<(Vec<u8>, u8)>)
    requires
        program_id@.len() == 32,
    ensures
        match spec_program_address(byte_views(seeds@), program_id@) {
            Some((address, bump)) => r matches Some((key, b)) && key@ == address && b == bump
                && address.len() == 32,
            None => r is None,
        },
{
    let array: [u8; 32] = program_id.try_into().unwrap();
    let seed_slices: Vec<&[u8]> = seeds.iter().map(|s| s.as_slice()).collect();
    Pubkey::try_find_program_address(&seed_slices, &Pubkey::new_from_array(array))
        .map(|(key, bump)| (key.to_bytes().to_vec(), bump))
}

/// Decode a base58 address into its 32 bytes.
pub fn parse_address(text: &str) -> (r: Result<Vec<u8>, AddressError>)
    ensures
        match spec_parse_address(text@) {
            Some(bytes) => r matches Ok(b) && b@ == bytes && bytes.len() == 32,
            None => r matches Err(e) && (e == AddressError::WrongSize || e == AddressError::Invalid),
        },
{
    pubkey_from_str(text)
}

/// The base58 text of a 32-byte public key.
pub fn address_text(bytes: &[u8]) -> (r: String)
    requires
        bytes@.len() == 32,
    ensures
        r@ == spec_address_text(bytes@),
{
    pubkey_to_string(bytes)
}

/// Programs whose accounts the oracle reads.
#[derive(Debug, Clone, Copy, PartialEq, Eq, Structural)]
pub enum KnownProgram {
    /// SPL Token program
    Token,
    /// Metaplex token metadata program
    TokenMetadata,
    /// Raydium AMM program
    RaydiumAmm,
    /// Orca Whirlpool program
    OrcaWhirlpool,
}

/// The address text of a known program.
pub open spec fn spec_program_text(p: KnownProgram) -> Seq<char> {
    match p {
        KnownProgram::Token => "TokenkegQfeZyiNwAJbNbGKPFXCWuBvf9Ss623VQ5DA"@,
        KnownProgram::TokenMetadata => "metaqbxxUerdq28cj1RbAWkYQm3ybzjb6a8bt518x1s"@,
        KnownProgram::RaydiumAmm => "675kPX9MHTjS2zt1qfr1NYHuzeLXfQM9H24wFSUt1Mp8"@,
        KnownProgram::OrcaWhirlpool => "whirLbMiicVdio4qvUfM5KAg6Ct8VwpYzGff3uctyCc"@,
    }
}

/// The address text of a known program.
pub fn program_text(p: KnownProgram) -> (r: &'static str)
    ensures
        r@ == spec_program_text(p),
{
    match p {
        KnownProgram::Token => "TokenkegQfeZyiNwAJbNbGKPFXCWuBvf9Ss623VQ5DA",
        KnownProgram::TokenMetadata => "metaqbxxUerdq28cj1RbAWkYQm3ybzjb6a8bt518x1s",
        KnownProgram::RaydiumAmm => "675kPX9MHTjS2zt1qfr1NYHuzeLXfQM9H24wFSUt1Mp8",
        KnownProgram::OrcaWhirlpool => "whirLbMiicVdio4qvUfM5KAg6Ct8VwpYzGff3uctyCc",
    }
}

/// The 32 bytes of a known program's address.
pub fn program_address(p: KnownProgram) -> (r: Result<Vec<u8>, AddressError>)
    ensures
        match spec_parse_address(spec_program_text(p)) {
            Some(bytes) => r matches Ok(b) && b@ == bytes,
            None => r is Err,
        },
{
    pubkey_from_str(program_text(p))
}

/// The seed that starts a metadata account's derivation.
pub open spec fn metadata_seed() -> Seq<u8> {
    seq![109u8, 101, 116, 97, 100, 97, 116, 97]
}

/// The metadata account of a mint: the program address derived from the seeds "metadata", the
/// metadata program's address and the mint's address, under the metadata program. `None` inside
/// `Ok` when no bump seed gives a valid address; `Err(())` when an address text does not parse.
pub open spec fn spec_metadata_account(mint_text: Seq<char>) -> Result<Option<(Seq<u8>, u8)>, ()> {
    match spec_parse_address(mint_text) {
        None => Err(()),
        Some(mint) => match spec_parse_address(spec_program_text(KnownProgram::TokenMetadata)) {
            None => Err(()),
            Some(program) => Ok(spec_program_address(seq![metadata_seed(), program, mint], program)),
        },
    }
}

/// Derive the address of a mint's metadata account, with its bump seed.
pub fn metadata_account(mint: &str) -> (r: Result<(Vec<u8>, u8), AddressError>)
    ensures
        match spec_metadata_account(mint@) {
            Ok(Some((address, bump))) => r matches Ok((key, b)) && key@ == address && b == bump,
            Ok(None) => r == Err::<(Vec<u8>, u8), AddressError>(AddressError::NoProgramAddress),
            Err(()) => r matches Err(e) && (e == AddressError::WrongSize || e == AddressError::Invalid),
        },
{
    let mint_bytes = match pubkey_from_str(mint) {
        Ok(b) => b,
        Err(e) => return Err(e),
    };
    let program = match pubkey_from_str(program_text(KnownProgram::TokenMetadata)) {
        Ok(b) => b,
        Err(e) => return Err(e),
    };
    let mut seed: Vec<u8> = Vec::new();
    seed.push(109u8);
    seed.push(101u8);
    seed.push(116u8);
    seed.push(97u8);
    seed.push(100u8);
    seed.push(97u8);
    seed.push(116u8);
    seed.push(97u8);
    let mut seeds: Vec<Vec<u8>> = Vec::new();
    seeds.push(seed);
    seeds.push(program.clone());
    seeds.push(mint_bytes);
    proof {
        assert(seeds@[0]@ =~= metadata_seed());
        assert(byte_views(seeds@) =~= seq![
            metadata_seed(),
            spec_parse_address(spec_program_text(KnownProgram::TokenMetadata))->0,
            spec_parse_address(mint@)->0,
        ]);
    }
    match try_find_program_address(&seeds, program.as_slice()) {
        Some(found) => Ok(found),
        None => Err(AddressError::NoProgramAddress),
    }
}

} // verus!
