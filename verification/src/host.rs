//! The parts of the Soroban SDK that the contracts compute with.
//!
//! The host meters what it does: a call that exhausts the budget of a
//! transaction ends the transaction, as a call that exhausts the memory of a
//! process ends the process.
use crate::values::Address;
use soroban_sdk::xdr::FromXdr;
use soroban_sdk::{Bytes, Env};
use vstd::prelude::*;

verus! {

/// The handle through which the host is called.
#[verifier::external_type_specification]
#[verifier::external_body]
pub struct ExEnv(soroban_sdk::Env);

/// A vector that the host keeps.
#[verifier::external_type_specification]
#[verifier::external_body]
#[verifier::reject_recursive_types(T)]
pub struct ExVec<T>(soroban_sdk::Vec<T>);

/// The numbers that a host vector holds, first to last.
pub uninterp spec fn numbers(list: soroban_sdk::Vec<i128>) -> Seq<i128>;

/// `soroban_sdk::Vec::new`: a host vector that holds nothing. Every vector of
/// the library starts out here, so that all of its items are numbers.
#[verifier::external_body]
pub(crate) fn no_numbers(env: &Env) -> (list: soroban_sdk::Vec<i128>)
    ensures
        numbers(list) == Seq::<i128>::empty(),
{
    soroban_sdk::Vec::new(env)
}

/// `soroban_sdk::Vec::len`: how many numbers a host vector holds.
#[verifier::external_body]
pub(crate) fn count(list: &soroban_sdk::Vec<i128>) -> (n: u32)
    ensures
        n == numbers(*list).len(),
{
    list.len()
}

/// `soroban_sdk::Vec::get`: the number at a position, or `None` past the end.
#[verifier::external_body]
pub(crate) fn number_at(list: &soroban_sdk::Vec<i128>, i: u32) -> (x: Option<i128>)
    ensures
        x == (if i < numbers(*list).len() {
            Some(numbers(*list)[i as int])
        } else {
            None
        }),
{
    list.get(i)
}

/// `soroban_sdk::Vec::push_back`: a number joins at the end. Positions are 32
/// bits wide, so the vector must not be full.
#[verifier::external_body]
pub(crate) fn push_number(list: &mut soroban_sdk::Vec<i128>, x: i128)
    requires
        numbers(*old(list)).len() < u32::MAX,
    ensures
        numbers(*final(list)) == numbers(*old(list)).push(x),
{
    list.push_back(x)
}

/// The SHA-256 digest of bytes, which is 32 bytes itself.
pub uninterp spec fn sha256_digest(data: Seq<u8>) -> [u8; 32];

/// `soroban_sdk::crypto::Crypto::sha256`: the digest of bytes. The lengths of
/// host bytes are 32 bits wide.
#[verifier::external_body]
pub(crate) fn sha256(env: &Env, data: &Vec<u8>) -> (digest: Vec<u8>)
    requires
        data@.len() <= u32::MAX,
    ensures
        digest@ == sha256_digest(data@)@,
{
    env.crypto().sha256(&Bytes::from_slice(env, data)).to_array().to_vec()
}

/// The strkey of the address with an XDR form.
pub uninterp spec fn strkey(xdr: Seq<u8>) -> Seq<char>;

/// Whether base 32 uses a character.
pub open spec fn is_base32_char(c: char) -> bool {
    ('A' <= c && c <= 'Z') || ('2' <= c && c <= '7')
}

/// `soroban_sdk::Address::to_string`: the strkey of an address, which is 56
/// characters of base 32: a version byte, the 32 bytes of the identity and a
/// checksum of two.
#[verifier::external_body]
pub(crate) fn address_strkey(env: &Env, xdr: &Vec<u8>) -> (text: String)
    requires
        exists|address: Address| #[trigger] address.xdr() == xdr@,
    ensures
        text@ == strkey(xdr@),
        text@.len() == 56,
        forall|i: int| 0 <= i < text@.len() ==> is_base32_char(#[trigger] text@[i]),
{
    let address = soroban_sdk::Address::from_xdr(env, &Bytes::from_slice(env, xdr)).unwrap();
    address.to_string().to_string()
}

} // verus!
