//! Row values and their UTF-8 bytes.

use vstd::prelude::*;
use std::rc::Rc;
use vstd::string::StringSliceAdditionalSpecFns;
use vstd::utf8::{decode_utf8, encode_scalar, encode_utf8, is_scalar, valid_utf8};

verus! {

/// The text a row decodes to: a null row reads as the empty string.
pub open spec fn row_text(r: Option<Rc<String>>) -> Seq<char> {
    match r {
        Some(s) => s@,
        None => seq![],
    }
}

/// A row's value as text, `None` for a null row.
pub open spec fn row_view(r: Option<Rc<String>>) -> Option<Seq<char>> {
    match r {
        Some(s) => Some(s@),
        None => None,
    }
}

/// The UTF-8 bytes of a row's text.
pub open spec fn row_bytes(r: Option<Rc<String>>) -> Seq<u8> {
    encode_utf8(row_text(r))
}

/// The text that a run of bytes decodes to, or the empty text where the bytes
/// are not UTF-8.
pub open spec fn bytes_text(b: Seq<u8>) -> Seq<char> {
    if valid_utf8(b) {
        decode_utf8(b)
    } else {
        seq![]
    }
}

/// The texts held by a sequence of string slices.
pub open spec fn str_views(v: Seq<&str>) -> Seq<Seq<char>> {
    v.map_values(|s: &str| s@)
}

/// The text holds no NUL character.
pub open spec fn no_nul(s: Seq<char>) -> bool {
    forall|j: int| 0 <= j < s.len() ==> s[j] != '\0'
}

/// No row's text holds the NUL character.
pub open spec fn no_nul_rows(rows: Seq<Option<Rc<String>>>) -> bool {
    forall|i: int| 0 <= i < rows.len() ==> no_nul(row_text(#[trigger] rows[i]))
}

/// Relies on `std::str::from_utf8`: it succeeds exactly on valid UTF-8, and the
/// slice it returns holds those bytes.
#[verifier::external_body]
pub(crate) fn checked_utf8<'a>(b: &'a [u8]) -> (r: Option<&'a str>)
    ensures
        r is Some <==> valid_utf8(b@),
        r is Some ==> r->Some_0.spec_bytes() == b@,
{
    std::str::from_utf8(b).ok()
}

/// Decoding the bytes of a string gives back its text.
pub proof fn lemma_text_of_bytes(s: &str)
    ensures
        bytes_text(s.spec_bytes()) == s@,
{
    vstd::utf8::encode_utf8_valid_utf8(s@);
    vstd::utf8::encode_utf8_decode_utf8(s@);
}

/// Only the NUL character encodes to a zero byte.
proof fn lemma_scalar_nonzero(c: u32)
    requires
        is_scalar(c),
        c != 0,
    ensures
        forall|j: int| 0 <= j < encode_scalar(c).len() ==> encode_scalar(c)[j] != 0,
{
    assert(0 < c <= 0x7F ==> (c & 0x7F) as u8 != 0) by (bit_vector);
    assert(forall|x: u8| (0xC0u8 | x) != 0) by (bit_vector);
    assert(forall|x: u8| (0xE0u8 | x) != 0) by (bit_vector);
    assert(forall|x: u8| (0xF0u8 | x) != 0) by (bit_vector);
    assert(forall|x: u8| (0x80u8 | x) != 0) by (bit_vector);
}

/// Text without the NUL character encodes to bytes without a zero.
pub proof fn lemma_encode_nonzero(s: Seq<char>)
    requires
        no_nul(s),
    ensures
        forall|j: int| 0 <= j < encode_utf8(s).len() ==> encode_utf8(s)[j] != 0,
    decreases s.len(),
{
    if s.len() > 0 {
        let c = s[0] as u32;
        vstd::utf8::char_is_scalar(s[0]);
        assert(c != 0) by {
            vstd::utf8::char_u32_cast(s[0], c);
        }
        lemma_scalar_nonzero(c);
        lemma_encode_nonzero(s.drop_first());
        let e = encode_utf8(s);
        assert forall|j: int| 0 <= j < e.len() implies e[j] != 0 by {
            if j >= encode_scalar(c).len() {
                assert(e[j] == encode_utf8(s.drop_first())[j - encode_scalar(c).len()]);
            }
        }
    }
}

} // verus!
