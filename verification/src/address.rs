//! The text form of endpoint addresses: their bytes in z-base-32.

use vstd::prelude::*;

verus! {

/// The alphabet of z-base-32, `ybndrfg8ejkmcpqxot1uwisza345h769` as ASCII
/// bytes, each character standing for five bits.
pub open spec fn z32_alphabet() -> Seq<u8> {
    seq![
        121u8, 98u8, 110u8, 100u8, 114u8, 102u8, 103u8, 56u8, 101u8, 106u8, 107u8, 109u8, 99u8, 112u8, 113u8, 120u8,
        111u8, 116u8, 49u8, 117u8, 119u8, 105u8, 115u8, 122u8, 97u8, 51u8, 52u8, 53u8, 104u8, 55u8, 54u8, 57u8,
    ]
}

/// Whether every byte of `text` is a character of the z-base-32 alphabet.
pub open spec fn all_in_alphabet(text: Seq<u8>) -> bool {
    forall|i: int| 0 <= i < text.len() ==> z32_alphabet().contains(#[trigger] text[i])
}

/// How many bytes `z32::decode` hands back for a text of `n` characters: five
/// for every eight characters, and for the last `n % 8` characters of a
/// shorter group 0, 1, 1, 2, 2, 3, 4 or 4 bytes.
pub open spec fn decoded_len(n: nat) -> nat {
    let r = n % 8;
    if r == 1 || r == 3 || r == 6 {
        (n * 5 + 7) / 8
    } else {
        n * 5 / 8
    }
}

/// What `z32::encode` makes of `bytes`, as ASCII bytes.
pub uninterp spec fn z32_text(bytes: Seq<u8>) -> Seq<u8>;

/// What `z32::decode` makes of `text`, where every byte of it is in the alphabet.
pub uninterp spec fn z32_bytes(text: Seq<u8>) -> Seq<u8>;

/// Calls `z32::encode`. Its source makes one alphabet character of every
/// five bits, the last padded with zero bits, so the text is ⌈8n/5⌉ long.
#[verifier::external_body]
fn z32_encode(bytes: &[u8]) -> (text: Vec<u8>)
    ensures
        text@ == z32_text(bytes@),
        text@.len() == (bytes@.len() * 8 + 4) / 5,
        all_in_alphabet(text@),
{
    z32::encode(bytes).into_bytes()
}

/// Why a text is not an address.
#[derive(Debug, Clone, Copy, PartialEq, Eq, Structural)]
pub enum AddressError {
    /// The byte at `index`, read as `character`, is not in the z-base-32 alphabet.
    InvalidCharacter { character: char, index: usize },
}

/// The outcome of reading a text as an address.
pub type AddressResult = Result<Vec<u8>, AddressError>;

/// Calls `z32::decode`. Its source reads the text from the start, five bits
/// per character, and stops at the first byte outside the alphabet, which it
/// reports with its position; otherwise it hands back the whole bytes that
/// the bits make: five per eight characters, and for a last group of 1 to 7
/// characters 1, 1, 2, 2, 3, 4 or 4 more (`decoded_len`). Text made by
/// `z32::encode` decodes back to the bytes it was made from: encoding pads
/// the last character with zero bits, and ⌈8n/5⌉ characters decode to n
/// bytes (the crate's `basic` test checks this on one text).
#[verifier::external_body]
fn z32_decode(text: &[u8]) -> (r: AddressResult)
    ensures
        (match r {
            Ok(bytes) => {
                &&& all_in_alphabet(text@)
                &&& bytes@ == z32_bytes(text@)
                &&& bytes@.len() == decoded_len(text@.len())
            },
            Err(AddressError::InvalidCharacter { character, index }) => {
                &&& index < text@.len()
                &&& !z32_alphabet().contains(text@[index as int])
                &&& character == text@[index as int] as char
                &&& all_in_alphabet(text@.take(index as int))
            },
        }),
        forall|bytes: Seq<u8>| #[trigger] z32_text(bytes) == text@ ==> r is Ok && r.unwrap()@ == bytes,
{
    match z32::decode(text) {
        Ok(bytes) => Ok(bytes),
        Err(z32::Z32Error::InvalidCharacter(character, index)) => Err(
            AddressError::InvalidCharacter { character, index },
        ),
    }
}

/// What decoding `text` as an address gives.
pub open spec fn address_decoding(text: Seq<u8>, r: Result<Vec<u8>, AddressError>) -> bool {
    &&& match r {
        Ok(bytes) => {
            &&& all_in_alphabet(text)
            &&& bytes@ == z32_bytes(text)
            &&& bytes@.len() == decoded_len(text.len())
        },
        Err(AddressError::InvalidCharacter { character, index }) => {
            &&& index < text.len()
            &&& !z32_alphabet().contains(text[index as int])
            &&& character == text[index as int] as char
            &&& all_in_alphabet(text.take(index as int))
        },
    }
    &&& forall|bytes: Seq<u8>| #[trigger] z32_text(bytes) == text ==> r is Ok && r.unwrap()@ == bytes
}

/// The z-base-32 text, as ASCII bytes, under which the address `bytes` is shown.
pub fn encode_address(bytes: &[u8]) -> (text: Vec<u8>)
    ensures
        text@ == z32_text(bytes@),
        text@.len() == (bytes@.len() * 8 + 4) / 5,
        all_in_alphabet(text@),
{
    z32_encode(bytes)
}

/// The address bytes that the z-base-32 `text` stands for; refused at the
/// first byte outside the alphabet.
pub fn decode_address(text: &[u8]) -> (r: AddressResult)
    ensures
        address_decoding(text@, r),
{
    z32_decode(text)
}

/// An address shown by `encode_address` is read back by `decode_address` as
/// the same bytes.
pub proof fn lemma_address_roundtrip(bytes: Seq<u8>, text: Seq<u8>, r: Result<Vec<u8>, AddressError>)
    requires
        text == z32_text(bytes),
        address_decoding(text, r),
    ensures
        r matches Ok(b) && b@ == bytes,
{
}

} // verus!
