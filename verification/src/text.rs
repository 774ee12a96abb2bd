//! Text made from bytes: UTF-8 decoding and building strings.

use vstd::prelude::*;
use vstd::utf8::{decode_utf8, valid_utf8};

verus! {

/// What `String::from_utf8_lossy` makes of the bytes: their UTF-8 decoding,
/// with U+FFFD in place of each ill-formed sequence.
pub uninterp spec fn lossy_utf8(bytes: Seq<u8>) -> Seq<char>;

/// The text of the bytes, read as ASCII (each byte one character).
pub open spec fn ascii_text(bytes: Seq<u8>) -> Seq<char> {
    bytes.map_values(|b: u8| b as char)
}

/// The code of each character, as a byte.
pub open spec fn char_codes(text: Seq<char>) -> Seq<u8> {
    text.map_values(|c: char| c as u8)
}

/// Reading bytes as ASCII text and taking the codes back gives the bytes.
pub proof fn lemma_char_codes_ascii_text(bytes: Seq<u8>)
    ensures
        char_codes(ascii_text(bytes)) == bytes,
{
    assert forall|i: int| 0 <= i < bytes.len() implies char_codes(ascii_text(bytes))[i]
        == bytes[i] by {
        let b = bytes[i];
        assert(((b as char) as u8) == b);
    }
    assert(char_codes(ascii_text(bytes)) =~= bytes);
}

/// Calls `String::from_utf8_lossy`. Trusted: the result is `lossy_utf8` of
/// the bytes, and for valid UTF-8 it is their decoding, as the standard
/// library documents.
#[verifier::external_body]
pub(crate) fn utf8_lossy(bytes: &[u8]) -> (res: String)
    ensures
        res@ == lossy_utf8(bytes@),
        valid_utf8(bytes@) ==> res@ == decode_utf8(bytes@),
{
    String::from_utf8_lossy(bytes).into_owned()
}

/// Calls `std::str::from_utf8`. Trusted: it succeeds exactly on valid UTF-8
/// and then gives the decoded characters, as the standard library documents.
#[verifier::external_body]
pub(crate) fn utf8_str(bytes: &[u8]) -> (res: Option<&str>)
    ensures
        res is Some <==> valid_utf8(bytes@),
        res matches Some(s) ==> s@ == decode_utf8(bytes@),
{
    match std::str::from_utf8(bytes) {
        Ok(s) => Some(s),
        Err(_) => None,
    }
}

/// Calls `String::push`. Trusted: the character is appended, as the standard
/// library documents.
#[verifier::external_body]
pub(crate) fn push_char(s: &mut String, c: char)
    ensures
        final(s)@ == old(s)@.push(c),
{
    s.push(c)
}

/// Appends the bytes, each as the character with that code, to `out`.
pub(crate) fn push_ascii(out: &mut String, bytes: &[u8])
    ensures
        final(out)@ == old(out)@ + ascii_text(bytes@),
{
    let mut i: usize = 0;
    while i < bytes.len()
        invariant
            i <= bytes.len(),
            out@ == old(out)@ + ascii_text(bytes@.take(i as int)),
        decreases bytes.len() - i,
    {
        push_char(out, bytes[i] as char);
        i = i + 1;
        assert(ascii_text(bytes@.take(i as int)) =~= ascii_text(bytes@.take(i - 1)).push(
            bytes@[i - 1] as char,
        ));
        assert(out@ =~= old(out)@ + ascii_text(bytes@.take(i as int)));
    }
    assert(bytes@.take(bytes.len() as int) =~= bytes@);
}

} // verus!
