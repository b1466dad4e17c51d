//! Byte/character plumbing shared by the encoders: building `String`s from
//! UTF-8 bytes.

use vstd::prelude::*;
use vstd::utf8::*;

verus! {

broadcast use vstd::utf8::encode_utf8_decode_utf8, vstd::utf8::decode_utf8_encode_utf8;

/// `String::from_utf8`: succeeds exactly on valid UTF-8 input, and then the
/// string holds the characters that the bytes encode.
#[verifier::external_body]
pub(crate) fn string_from_utf8(bytes: Vec<u8>) -> (res: Option<String>)
    ensures
        res is Some <==> valid_utf8(bytes@),
        res matches Some(s) ==> s@ == decode_utf8(bytes@),
{
    String::from_utf8(bytes).ok()
}

/// The characters that a sequence of ASCII bytes stands for.
pub open spec fn ascii_chars(bytes: Seq<u8>) -> Seq<char> {
    bytes.map_values(|b: u8| b as char)
}

pub open spec fn all_ascii(bytes: Seq<u8>) -> bool {
    forall|i: int| 0 <= i < bytes.len() ==> #[trigger] bytes[i] < 128
}

pub proof fn lemma_ascii_encode(bytes: Seq<u8>)
    requires
        all_ascii(bytes),
    ensures
        encode_utf8(ascii_chars(bytes)) == bytes,
        is_ascii_chars(ascii_chars(bytes)),
{
    let cs = ascii_chars(bytes);
    assert forall|i: int| 0 <= i < cs.len() implies '\0' <= #[trigger] cs[i] <= '\u{7f}' by {
        assert(bytes[i] < 128);
    }
    is_ascii_chars_encode_utf8(cs);
    assert(encode_utf8(cs) =~= bytes) by {
        assert forall|i: int| 0 <= i < bytes.len() implies encode_utf8(cs)[i] == bytes[i] by {
            assert(cs[i] as u8 == encode_utf8(cs)[i]);
            assert(cs[i] == bytes[i] as char);
            let x = bytes[i];
            assert((x as char) as u8 == x);
        }
    }
}

/// A `String` holding exactly the given ASCII bytes.
pub fn ascii_to_string(bytes: Vec<u8>) -> (s: String)
    requires
        all_ascii(bytes@),
    ensures
        s@ == ascii_chars(bytes@),
        encode_utf8(s@) == bytes@,
{
    proof {
        lemma_ascii_encode(bytes@);
        encode_utf8_valid_utf8(ascii_chars(bytes@));
    }
    let ghost b = bytes@;
    match string_from_utf8(bytes) {
        Some(s) => s,
        None => {
            proof { assert(false); }
            String::new()
        }
    }
}

/// A decimal digit.
pub open spec fn is_dec_digit(c: char) -> bool {
    '0' <= c <= '9'
}

/// The value of decimal digits.
pub open spec fn dec_value(ds: Seq<char>) -> nat
    decreases ds.len(),
{
    if ds.len() == 0 {
        0
    } else {
        dec_value(ds.drop_last()) * 10 + (ds.last() as nat - 48) as nat
    }
}

/// A prefix of decimal digits is worth no more than all of them.
pub proof fn lemma_dec_value_grows(ds: Seq<char>, j: int)
    requires
        0 <= j <= ds.len(),
        forall|i: int| 0 <= i < ds.len() ==> is_dec_digit(#[trigger] ds[i]),
    ensures
        dec_value(ds.take(j)) <= dec_value(ds),
    decreases ds.len() - j,
{
    if j < ds.len() {
        let d = ds.drop_last();
        assert(d.take(j) =~= ds.take(j));
        assert forall|i: int| 0 <= i < d.len() implies is_dec_digit(#[trigger] d[i]) by {
            assert(d[i] == ds[i]);
        }
        lemma_dec_value_grows(d, j);
        assert(is_dec_digit(ds[ds.len() - 1]));
    } else {
        assert(ds.take(j) =~= ds);
    }
}

} // verus!
