//! A boolean written as `0` or `1`.
use vstd::prelude::*;
use crate::fields::DecodeError;
use crate::markup::Tag;

verus! {

/// `1` for true, `0` for false.
pub open spec fn bool_text(v: bool) -> Seq<u8> {
    if v {
        seq![49u8]
    } else {
        seq![48u8]
    }
}

pub fn serialize(value: bool) -> (r: Vec<u8>)
    ensures
        r@ == bool_text(value),
{
    let r = if value {
        vec![49u8]
    } else {
        vec![48u8]
    };
    assert(r@ =~= bool_text(value));
    r
}

/// Reads exactly `1` as true and `0` as false; any other text is refused, and
/// the error carries it.
pub fn deserialize(text: &[u8]) -> (r: Result<bool, DecodeError>)
    ensures
        text@ == bool_text(true) ==> r == Ok::<bool, DecodeError>(true),
        text@ == bool_text(false) ==> r == Ok::<bool, DecodeError>(false),
        text@ != bool_text(true) && text@ != bool_text(false) ==> (r matches Err(e) && e.is_field(
            Tag::Sunny,
            text@,
        )),
{
    if text.len() == 1 && text[0] == 49u8 {
        assert(text@ =~= bool_text(true));
        Ok(true)
    } else if text.len() == 1 && text[0] == 48u8 {
        assert(text@ =~= bool_text(false));
        Ok(false)
    } else {
        proof {
            if text@ == bool_text(true) || text@ == bool_text(false) {
                assert(text@.len() == 1);
            }
        }
        let copy = vstd::slice::slice_to_vec(text);
        Err(DecodeError::Field { tag: Tag::Sunny, text: copy })
    }
}

} // verus!
