//! What this library relies on from the `untrusted` crate: an immutable view
//! of a byte string and a sequential, bounds-checked reader over it.

use vstd::prelude::*;

verus! {

/// `untrusted::Input`: a byte string that can only be read through a reader.
#[verifier::external_type_specification]
#[verifier::external_body]
pub struct ExInput<'a>(untrusted::Input<'a>);

/// `untrusted::Reader`: a position in an input, which only moves forward.
#[verifier::external_type_specification]
#[verifier::external_body]
pub struct ExReader<'a>(untrusted::Reader<'a>);

/// `untrusted::EndOfInput`: the error of reading past the end.
#[verifier::external_type_specification]
#[verifier::external_body]
pub struct ExEndOfInput(untrusted::EndOfInput);

/// The bytes that an `untrusted::Input` spans.
pub uninterp spec fn input_bytes(input: untrusted::Input) -> Seq<u8>;

/// The bytes that an `untrusted::Reader` has not yet consumed.
pub uninterp spec fn reader_rest(reader: untrusted::Reader) -> Seq<u8>;

/// `untrusted::Input::from` wraps the slice without copying: the input spans
/// exactly the bytes of the slice. Its one demand, a length below the
/// largest `usize`, holds of every slice.
pub assume_specification<'a>[ untrusted::Input::<'a>::from ](bytes: &'a [u8]) -> (r:
    untrusted::Input<'a>)
    ensures
        input_bytes(r) == bytes@,
;

/// `untrusted::Input::len` is the number of bytes spanned.
pub assume_specification<'a>[ untrusted::Input::<'a>::len ](input: &untrusted::Input<'a>) -> (r:
    usize)
    ensures
        r == input_bytes(*input).len(),
;

/// `untrusted::Input::is_empty` tells whether no byte is spanned.
pub assume_specification<'a>[ untrusted::Input::<'a>::is_empty ](
    input: &untrusted::Input<'a>,
) -> (r: bool)
    ensures
        r == (input_bytes(*input).len() == 0),
;

/// `untrusted::Reader::new` starts at the first byte of the input: nothing is
/// consumed yet.
pub assume_specification<'a>[ untrusted::Reader::<'a>::new ](input: untrusted::Input<'a>) -> (r:
    untrusted::Reader<'a>)
    ensures
        reader_rest(r) == input_bytes(input),
;

/// `untrusted::Reader::at_end` tells whether every byte has been consumed.
pub assume_specification<'a>[ untrusted::Reader::<'a>::at_end ](
    reader: &untrusted::Reader<'a>,
) -> (r: bool)
    ensures
        r == (reader_rest(*reader).len() == 0),
;

/// `untrusted::Reader::read_byte` consumes and returns the next byte, or
/// fails and consumes nothing when no byte is left.
pub assume_specification<'a>[ untrusted::Reader::<'a>::read_byte ](
    reader: &mut untrusted::Reader<'a>,
) -> (r: Result<u8, untrusted::EndOfInput>)
    ensures
        match r {
            Ok(b) => {
                &&& reader_rest(*old(reader)).len() > 0
                &&& b == reader_rest(*old(reader))[0]
                &&& reader_rest(*final(reader)) == reader_rest(*old(reader)).skip(1)
            },
            Err(_) => {
                &&& reader_rest(*old(reader)).len() == 0
                &&& reader_rest(*final(reader)) == reader_rest(*old(reader))
            },
        },
;

/// `untrusted::Reader::skip_and_get_input` consumes the next `num_bytes`
/// bytes and returns them as an input of their own, or fails and consumes
/// nothing when fewer are left.
pub assume_specification<'a>[ untrusted::Reader::<'a>::skip_and_get_input ](
    reader: &mut untrusted::Reader<'a>,
    num_bytes: usize,
) -> (r: Result<untrusted::Input<'a>, untrusted::EndOfInput>)
    ensures
        match r {
            Ok(taken) => {
                &&& num_bytes <= reader_rest(*old(reader)).len()
                &&& input_bytes(taken) == reader_rest(*old(reader)).take(num_bytes as int)
                &&& reader_rest(*final(reader)) == reader_rest(*old(reader)).skip(
                    num_bytes as int,
                )
            },
            Err(_) => {
                &&& num_bytes > reader_rest(*old(reader)).len()
                &&& reader_rest(*final(reader)) == reader_rest(*old(reader))
            },
        },
;

} // verus!
