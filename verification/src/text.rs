//! Bytes to text.
use crate::decimal::{decimal_text, lemma_decimal_text_value, push_decimal};
use vstd::prelude::*;
use vstd::utf8::{
    decode_utf8, is_leading_byte_width_1, partial_valid_utf8_extend_ascii_block, valid_utf8,
};

verus! {

/// `core::str::Utf8Error`, carried through and never looked into.
#[verifier::external_type_specification]
#[verifier::external_body]
pub struct ExUtf8Error(core::str::Utf8Error);

/// `core::str::from_utf8`: succeeds exactly on well-formed UTF-8, and then
/// returns the characters that the bytes encode.
pub assume_specification[ core::str::from_utf8 ](v: &[u8]) -> (r: Result<
    &str,
    core::str::Utf8Error,
>)
    ensures
        r is Ok <==> valid_utf8(v@),
        r matches Ok(s) ==> s@ == decode_utf8(v@),
;

/// The text that `bytes` encode, if they are UTF-8.
pub fn text_of(bytes: &[u8]) -> (r: Option<String>)
    ensures
        r is Some <==> valid_utf8(bytes@),
        r matches Some(t) ==> t@ == decode_utf8(bytes@),
{
    match core::str::from_utf8(bytes) {
        Ok(s) => Some(s.to_owned()),
        Err(_) => None,
    }
}

/// The text that `String::from_utf8_lossy` makes of a byte sequence.
pub uninterp spec fn lossy_text(bytes: Seq<u8>) -> Seq<char>;

/// Bytes as text, read leniently: the text that they encode where they
/// are UTF-8, and else what `String::from_utf8_lossy` makes of them.
pub open spec fn lenient_text(bytes: Seq<u8>) -> Seq<char> {
    if valid_utf8(bytes) {
        decode_utf8(bytes)
    } else {
        lossy_text(bytes)
    }
}

/// `String::from_utf8_lossy`: the text of the bytes, with a replacement
/// character for each part that is not UTF-8. Of well-formed UTF-8 it is
/// the text that the bytes encode.
#[verifier::external_body]
pub(crate) fn lossy(bytes: &[u8]) -> (r: String)
    ensures
        valid_utf8(bytes@) ==> r@ == decode_utf8(bytes@),
        !valid_utf8(bytes@) ==> r@ == lossy_text(bytes@),
{
    String::from_utf8_lossy(bytes).into_owned()
}

/// What `str::trim` leaves of a text.
pub uninterp spec fn trimmed(text: Seq<char>) -> Seq<char>;

/// `str::trim`: the text without its leading and trailing white space.
pub assume_specification[ str::trim ](s: &str) -> (r: &str)
    ensures
        r@ == trimmed(s@),
;

/// The text of a number is UTF-8.
pub proof fn lemma_decimal_text_utf8(n: int)
    ensures
        valid_utf8(decimal_text(n)),
{
    let t = decimal_text(n);
    lemma_decimal_text_value(n);
    assert forall|i: int| 0 <= i < t.len() implies #[trigger] is_leading_byte_width_1(t[i]) by {}
    partial_valid_utf8_extend_ascii_block(t, 0, t.len() as int);
    assert(t.subrange(0, t.len() as int) =~= t);
}

/// The shortest decimal text of `n`, as a string.
pub fn decimal_string(n: i64) -> (r: String)
    ensures
        r@ == decode_utf8(decimal_text(n as int)),
{
    let mut digits: Vec<u8> = Vec::new();
    push_decimal(n, &mut digits);
    proof {
        lemma_decimal_text_utf8(n as int);
    }
    match text_of(digits.as_slice()) {
        Some(s) => s,
        None => String::new(),
    }
}

} // verus!
