use vstd::prelude::*;

verus! {

/// The hexadecimal digest that `blake3::hash` derives from a byte string.
/// Deterministic: the digest depends on the input bytes alone, which is what
/// lets hash-keyed associations survive a rescan of unchanged file names.
pub uninterp spec fn blake3_hex(bytes: Seq<u8>) -> Seq<char>;

/// Relies on `blake3::hash` and `blake3::Hash::to_string`: the digest is a
/// pure function of the input bytes, rendered as 64 lowercase hexadecimal
/// characters — two per byte of the 32-byte digest, each a digit or one of
/// `a` to `f`.
#[verifier::external_body]
pub fn hash(value: &[u8]) -> (r: String)
    ensures
        r@ == blake3_hex(value@),
        r@.len() == 64,
        forall|i: int|
            0 <= i < r@.len() ==> (48 <= ((#[trigger] r@[i]) as u32) <= 57 || 97 <= (r@[i] as u32)
                <= 102),
{
    blake3::hash(value).to_string()
}

} // verus!
