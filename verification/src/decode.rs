//! Decoding a fortune file's raw bytes into well-formed text.

use vstd::prelude::*;

verus! {

/// The text that UTF-8 decoding with replacement yields for the given raw
/// bytes, as UTF-8 bytes again; a function of the input bytes alone.
pub uninterp spec fn utf8_repair(raw: Seq<u8>) -> Seq<u8>;

/// Each byte sequence of `rs` decoded.
pub open spec fn decoded_all(rs: Seq<Seq<u8>>) -> Seq<Seq<u8>> {
    rs.map_values(|b: Seq<u8>| utf8_repair(b))
}

/// Relies on encoding_rs::UTF_8.decode: it decodes with BOM sniffing and
/// replaces malformed byte sequences instead of failing, and its result
/// depends on the input bytes alone.
#[verifier::external_body]
pub(crate) fn decode_utf8(raw: &Vec<u8>) -> (r: Vec<u8>)
    ensures
        r@ == utf8_repair(raw@),
{
    let (text, _, _) = encoding_rs::UTF_8.decode(raw.as_slice());
    text.into_owned().into_bytes()
}

} // verus!
