//! Validator addresses written in base64, as the delegate command takes them.

use vstd::prelude::*;
use crate::address::Address;
use crate::error::Error;

verus! {

/// `base64::DecodeError`, the error of `base64::decode`.
#[verifier::external_type_specification]
#[verifier::external_body]
pub struct ExDecodeError(base64::DecodeError);

/// The symbol of a 6-bit value in the standard base64 alphabet
/// (`A`-`Z`, `a`-`z`, `0`-`9`, `+`, `/`).
pub open spec fn std_symbol(x: int) -> char {
    if x < 26 {
        (65 + x) as char
    } else if x < 52 {
        (97 + (x - 26)) as char
    } else if x < 62 {
        (48 + (x - 52)) as char
    } else if x == 62 {
        '+'
    } else {
        '/'
    }
}

/// The standard, padded base64 encoding of a byte string: each group of three
/// bytes becomes four symbols; a last group of one or two bytes is padded
/// with `=` to four symbols.
pub open spec fn std_encoding(b: Seq<u8>) -> Seq<char>
    decreases b.len(),
{
    if b.len() == 0 {
        Seq::empty()
    } else {
        let x0 = b[0] as int;
        let x1 = if b.len() > 1 { b[1] as int } else { 0 };
        let x2 = if b.len() > 2 { b[2] as int } else { 0 };
        if b.len() == 1 {
            seq![std_symbol(x0 / 4), std_symbol((x0 % 4) * 16), '=', '=']
        } else if b.len() == 2 {
            seq![
                std_symbol(x0 / 4),
                std_symbol((x0 % 4) * 16 + x1 / 16),
                std_symbol((x1 % 16) * 4),
                '=',
            ]
        } else {
            seq![
                std_symbol(x0 / 4),
                std_symbol((x0 % 4) * 16 + x1 / 16),
                std_symbol((x1 % 16) * 4 + x2 / 64),
                std_symbol(x2 % 64),
            ] + std_encoding(b.skip(3))
        }
    }
}

/// The encoding of `n` bytes has four symbols per started group of three.
pub proof fn lemma_std_encoding_len(b: Seq<u8>)
    ensures
        std_encoding(b).len() == 4 * ((b.len() + 2) / 3),
    decreases b.len(),
{
    if b.len() > 2 {
        lemma_std_encoding_len(b.skip(3));
    }
}

/// The bytes that `base64::decode` (standard alphabet, padded) reads from a
/// string, or `None` where it refuses the string.
pub uninterp spec fn base64_decoded(s: Seq<char>) -> Option<Seq<u8>>;

/// Calls `base64::decode` on `s`. Claims that the result is a function of
/// the string (the bytes named by `base64_decoded`, or an error exactly where
/// `base64_decoded` is `None`), and that the standard, padded encoding of any
/// bytes decodes to those bytes, as the crate's round-trip tests check.
/// Nothing more is claimed of other strings (unpadded ones, say). The bound
/// on the length keeps the crate's length arithmetic from overflowing, where
/// it would panic.
#[verifier::external_body]
fn decode_base64(s: &str) -> (r: Result<Vec<u8>, base64::DecodeError>)
    requires
        s@.len() <= usize::MAX / 8,
    ensures
        match r {
            Ok(v) => base64_decoded(s@) == Some(v@),
            Err(_) => base64_decoded(s@) is None,
        },
        match r {
            Ok(v) => forall|b: Seq<u8>| #[trigger] std_encoding(b) == s@ ==> v@ == b,
            Err(_) => forall|b: Seq<u8>| #[trigger] std_encoding(b) != s@,
        },
{
    base64::decode(s)
}

/// A validator address from its bytes: exactly 32 of them.
pub fn validator_address_from_bytes(bytes: &Vec<u8>) -> (r: Result<Address, Error>)
    ensures
        bytes@.len() == 32 ==> (r matches Ok(a) && a.bytes@ == bytes@),
        bytes@.len() != 32 ==> r == Err::<Address, Error>(Error::InvalidValidatorAddress),
{
    if bytes.len() != 32 {
        return Err(Error::InvalidValidatorAddress);
    }
    let mut arr = [0u8; 32];
    let mut i: usize = 0;
    while i < 32
        invariant
            i <= 32,
            bytes@.len() == 32,
            forall|j: int| 0 <= j < i ==> arr[j] == bytes@[j],
        decreases 32 - i,
    {
        arr[i] = bytes[i];
        i = i + 1;
    }
    let a = Address::new(arr);
    assert(a.bytes@ =~= bytes@);
    Ok(a)
}

/// What parsing a validator address from `s` may give: the address of the
/// 32 bytes that `s` decodes to, and the address `b` itself wherever `s` is
/// the standard base64 encoding of 32 bytes `b`; otherwise an invalid address.
pub open spec fn parses_to(s: Seq<char>, r: Result<Address, Error>) -> bool {
    &&& match base64_decoded(s) {
        Some(b) => {
            &&& b.len() == 32 ==> (r matches Ok(a) && a.bytes@ == b)
            &&& b.len() != 32 ==> r == Err::<Address, Error>(Error::InvalidValidatorAddress)
        },
        None => r == Err::<Address, Error>(Error::InvalidValidatorAddress),
    }
    &&& forall|b: Seq<u8>|
        #[trigger] std_encoding(b) == s && b.len() == 32 ==> (r matches Ok(a) && a.bytes@ == b)
}

/// Reads a validator address written in base64: the string must decode to
/// exactly 32 bytes.
pub fn parse_validator_address(s: &str) -> (r: Result<Address, Error>)
    requires
        s@.len() <= usize::MAX / 8,
    ensures
        parses_to(s@, r),
        match base64_decoded(s@) {
            Some(b) => {
                &&& b.len() == 32 ==> (r matches Ok(a) && a.bytes@ == b)
                &&& b.len() != 32 ==> r == Err::<Address, Error>(Error::InvalidValidatorAddress)
            },
            None => r == Err::<Address, Error>(Error::InvalidValidatorAddress),
        },
{
    match decode_base64(s) {
        Ok(bytes) => validator_address_from_bytes(&bytes),
        Err(_) => Err(Error::InvalidValidatorAddress),
    }
}

} // verus!
