//! Addresses in their textual form: Base58Check for hashes of keys and
//! scripts, Bech32 for witness programs.

use crate::hash;
use base58::ToBase58;
use bitcoin_bech32::constants::Network;
use bitcoin_bech32::u5;
use bitcoin_bech32::WitnessProgram;
use vstd::prelude::*;
use vstd::slice::slice_subrange;

verus! {

/// The version byte of the address of a public-key hash on the main network.
pub const PUBKEY_HASH_VERSION: u8 = 0x00;

/// The version byte of the address of a script hash on the main network.
pub const SCRIPT_HASH_VERSION: u8 = 0x05;

/// The Base58 text of `bytes`.
pub uninterp spec fn base58_text(bytes: Seq<u8>) -> Seq<char>;

/// The Bech32 address, on the main network, of the witness program
/// `program` of version `version`, where there is one.
pub uninterp spec fn witness_address_text(version: u8, program: Seq<u8>) -> Option<Seq<char>>;

/// `base58`'s `ToBase58::to_base58` on a byte slice: the Base58 text of
/// `bytes`, which depends on the bytes alone.
#[verifier::external_body]
fn base58_encode(bytes: &[u8]) -> (text: String)
    requires
        bytes@.len() <= 128,
    ensures
        text@ == base58_text(bytes@),
{
    bytes.to_base58()
}

/// `bitcoin_bech32`'s `WitnessProgram::new` on the main network, then
/// `to_address`: the address of the program, which depends on version and
/// program alone, or `None` where the crate rejects them. It accepts
/// every program of version zero that is 20 or 32 bytes long.
#[verifier::external_body]
fn witness_address(version: u8, program: &[u8]) -> (text: Option<String>)
    ensures
        match text {
            Some(t) => witness_address_text(version, program@) == Some(t@),
            None => witness_address_text(version, program@).is_none(),
        },
        version == 0 && (program@.len() == 20 || program@.len() == 32) ==> text is Some,
{
    match u5::try_from_u8(version) {
        Ok(v) => match WitnessProgram::new(v, program.to_vec(), Network::Bitcoin) {
            Ok(w) => Some(w.to_address()),
            Err(_) => None,
        },
        Err(_) => None,
    }
}

/// The Base58Check text of `payload`: the payload and the first four bytes
/// of its double SHA-256, in Base58.
pub open spec fn base58check_text(payload: Seq<u8>) -> Seq<char> {
    base58_text(payload + hash::spec_double_sha256(payload).bytes().take(4))
}

/// The address of the 20-byte hash `hash160` under the version byte
/// `version`.
pub open spec fn hash160_address_text(hash160: Seq<u8>, version: u8) -> Seq<char> {
    base58check_text(seq![version] + hash160)
}

/// A borrowed view over the 20 bytes of the hash of a key or script.
#[derive(Clone, Copy, Debug)]
pub struct Hash160<'a> {
    bytes: &'a [u8],
}

impl<'a> View for Hash160<'a> {
    type V = Seq<u8>;

    closed spec fn view(&self) -> Seq<u8> {
        self.bytes@
    }
}

impl<'a> Hash160<'a> {
    #[verifier::type_invariant]
    spec fn well_formed(self) -> bool {
        self.bytes@.len() == 20
    }

    /// The hash over 20 bytes.
    pub fn from_slice(bytes: &'a [u8]) -> (h: Hash160<'a>)
        requires
            bytes@.len() == 20,
        ensures
            h@ == bytes@,
    {
        Hash160 { bytes }
    }

    /// The 20 bytes of the hash.
    pub fn as_bytes(&self) -> (b: &'a [u8])
        ensures
            b@ == self@,
            b@.len() == 20,
    {
        proof {
            use_type_invariant(self);
        }
        self.bytes
    }
}

/// An address in its canonical textual form. Two addresses are the same
/// exactly when their texts are.
#[derive(Clone, Debug, PartialEq, Eq, Hash)]
pub struct Address(pub String);

impl View for Address {
    type V = Seq<char>;

    open spec fn view(&self) -> Seq<char> {
        self.0@
    }
}

impl Address {
    /// The Base58Check address of `hash160` under the version byte `version`.
    pub fn from_hash160(hash160: Hash160, version: u8) -> (a: Address)
        ensures
            a@ == hash160_address_text(hash160@, version),
    {
        let mut payload: Vec<u8> = Vec::new();
        payload.push(version);
        payload.extend_from_slice(hash160.as_bytes());
        let checksum = hash::double_sha256(payload.as_slice()).to_bytes();
        let ghost plain = payload@;
        payload.extend_from_slice(slice_subrange(checksum.as_slice(), 0, 4));
        proof {
            assert(plain =~= seq![version] + hash160@);
            assert(payload@ =~= plain + checksum@.take(4));
        }
        Address(base58_encode(payload.as_slice()))
    }

    /// The Bech32 address of a witness program, where it has one. A
    /// program of version zero that is 20 or 32 bytes long has one.
    pub fn from_witness_program(version: u8, program: &[u8]) -> (a: Option<Address>)
        ensures
            match a {
                Some(a) => witness_address_text(version, program@) == Some(a@),
                None => witness_address_text(version, program@).is_none(),
            },
            version == 0 && (program@.len() == 20 || program@.len() == 32) ==> a is Some,
    {
        match witness_address(version, program) {
            Some(text) => Some(Address(text)),
            None => None,
        }
    }

    /// The text of the address.
    pub fn as_str(&self) -> (s: &str)
        ensures
            s@ == self@,
    {
        self.0.as_str()
    }

    /// Whether two addresses have the same text.
    pub fn same(&self, other: &Address) -> (r: bool)
        ensures
            r == (self@ == other@),
    {
        self.0 == other.0
    }

    /// A copy of the address.
    pub fn duplicate(&self) -> (a: Address)
        ensures
            a@ == self@,
    {
        Address(self.0.clone())
    }
}

} // verus!
