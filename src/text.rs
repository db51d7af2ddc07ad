use vstd::prelude::*;

verus! {

/// The basE91 text of a byte sequence, as base91::slice_encode writes it.
pub uninterp spec fn base91_encoded(bytes: Seq<u8>) -> Seq<char>;

/// The bytes that base91::slice_decode reads from the text's bytes.
pub uninterp spec fn base91_decoded(text: Seq<char>) -> Seq<u8>;

/// Relies on base91::slice_encode: it writes the canonical basE91 text of the
/// bytes, one printable ASCII character per output byte, from which
/// base91::slice_decode reads the same bytes back; a non-empty input gives a
/// non-empty text.
#[verifier::external_body]
pub(crate) fn base91_encode(bytes: &Vec<u8>) -> (r: String)
    ensures
        r@ == base91_encoded(bytes@),
        base91_decoded(r@) == bytes@,
        bytes@.len() > 0 ==> r@.len() > 0,
{
    let encoded = base91::slice_encode(bytes.as_slice());
    String::from_utf8_lossy(&encoded).to_string()
}

/// Relies on base91::slice_decode: the bytes that the text's basE91
/// characters spell; characters outside the alphabet are skipped.
#[verifier::external_body]
pub(crate) fn base91_decode(text: &str) -> (r: Vec<u8>)
    ensures
        r@ == base91_decoded(text@),
{
    base91::slice_decode(text.as_bytes())
}

/// Relies on String::push: appends one character.
#[verifier::external_body]
pub(crate) fn push_char(s: &mut String, c: char)
    ensures
        final(s)@ == old(s)@.push(c),
{
    s.push(c)
}

} // verus!
