//! Building strings with `string_builder::Builder`, whose contents are the bytes appended.
use vstd::prelude::*;
use vstd::string::StringSliceAdditionalSpecFns;
use vstd::utf8::{encode_utf8, encode_utf8_decode_utf8, encode_utf8_valid_utf8, valid_utf8};

verus! {

#[verifier::external_type_specification]
#[verifier::external_body]
pub struct ExBuilder(string_builder::Builder);

/// The bytes a builder holds.
pub uninterp spec fn builder_bytes(b: string_builder::Builder) -> Seq<u8>;

/// Relies on `Builder::default`: a builder over an empty byte vector.
#[verifier::external_body]
pub(crate) fn new_builder() -> (r: string_builder::Builder)
    ensures
        builder_bytes(r) == Seq::<u8>::empty(),
{
    string_builder::Builder::default()
}

/// Relies on `Builder::append` for `&str`: the string's UTF-8 bytes are written at the end
/// of the builder's byte vector (a write to a vector does not fail).
#[verifier::external_body]
pub(crate) fn append_str(b: &mut string_builder::Builder, s: &str)
    ensures
        builder_bytes(*final(b)) == builder_bytes(*old(b)) + s.spec_bytes(),
{
    b.append(s)
}

/// Relies on `Builder::string`, which is `String::from_utf8` of the bytes: a string whose
/// UTF-8 encoding is those bytes when they are valid UTF-8, an error otherwise.
#[verifier::external_body]
pub(crate) fn builder_string(b: string_builder::Builder) -> (r: Option<String>)
    ensures
        r is Some <==> valid_utf8(builder_bytes(b)),
        r matches Some(s) ==> encode_utf8(s@) == builder_bytes(b),
{
    b.string().ok()
}

/// Encoding distributes over concatenation.
pub proof fn lemma_encode_concat(a: Seq<char>, b: Seq<char>)
    ensures
        encode_utf8(a + b) == encode_utf8(a) + encode_utf8(b),
    decreases a.len(),
{
    if a.len() == 0 {
        assert(a + b =~= b);
    } else {
        lemma_encode_concat(a.drop_first(), b);
        assert((a + b).drop_first() =~= a.drop_first() + b);
        assert((a + b)[0] == a[0]);
    }
}

/// A builder that holds the encoding of `text` gives back `text`.
pub(crate) fn finish(b: string_builder::Builder, Ghost(text): Ghost<Seq<char>>) -> (r: String)
    requires
        builder_bytes(b) == encode_utf8(text),
    ensures
        r@ == text,
{
    proof {
        encode_utf8_valid_utf8(text);
    }
    match builder_string(b) {
        Some(s) => {
            proof {
                encode_utf8_decode_utf8(s@);
                encode_utf8_decode_utf8(text);
            }
            s
        },
        None => {
            proof {
                assert(false);
            }
            String::new()
        },
    }
}

} // verus!
