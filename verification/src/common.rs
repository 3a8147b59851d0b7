//! Small conversions between strings and bytes.

use vstd::prelude::*;
use vstd::string::StringExecFns;
use vstd::utf8::{decode_utf8, valid_utf8};

verus! {

/// `String::from_utf8`: the string that `bytes` encode, or nothing where
/// they are not UTF-8.
#[verifier::external_body]
fn from_utf8(bytes: Vec<u8>) -> (text: Option<String>)
    ensures
        match text {
            Some(t) => valid_utf8(bytes@) && t@ == decode_utf8(bytes@),
            None => !valid_utf8(bytes@),
        },
{
    String::from_utf8(bytes).ok()
}

/// `n` spaces.
pub open spec fn spaces(n: nat) -> Seq<char> {
    Seq::new(n, |i: int| ' ')
}

/// A string of `width` spaces.
pub fn padding(width: u8) -> (pad: String)
    ensures
        pad@ == spaces(width as nat),
{
    let mut pad = String::new();
    let mut i: u8 = 0;
    while i < width
        invariant
            i <= width,
            pad@ == spaces(i as nat),
        decreases width - i,
    {
        proof {
            reveal_strlit(" ");
        }
        pad.append(" ");
        i += 1;
        assert(pad@ =~= spaces(i as nat));
    }
    pad
}

/// An owned copy of `text`.
pub fn f_str(text: &str) -> (owned: String)
    ensures
        owned@ == text@,
{
    text.to_owned()
}

/// The string that `bytes` encode, or nothing where they are not UTF-8.
pub fn try_utf(bytes: &[u8]) -> (text: Option<String>)
    ensures
        match text {
            Some(t) => valid_utf8(bytes@) && t@ == decode_utf8(bytes@),
            None => !valid_utf8(bytes@),
        },
{
    from_utf8(vstd::slice::slice_to_vec(bytes))
}

/// The string that the UTF-8 bytes `bytes` encode.
pub fn f_utf(bytes: &[u8]) -> (text: String)
    requires
        valid_utf8(bytes@),
    ensures
        text@ == decode_utf8(bytes@),
{
    try_utf(bytes).unwrap()
}

} // verus!
