use move_core_types::language_storage::{StructTag, TypeTag};
use vstd::prelude::*;
use vstd::string::StringSliceAdditionalSpecFns;

verus! {

broadcast use vstd::utf8::encode_utf8_decode_utf8, vstd::utf8::decode_utf8_encode_utf8;

/// The most `<` that the text of a struct type tag may hold. Each level of
/// generic or vector nesting opens one, so this bounds the nesting depth; at
/// two containers per level the tag stays far within the canonical encoding's
/// container depth of 500.
pub const MAX_TYPE_NESTING: usize = 64;

/// The longest text of a struct type tag, in bytes. It keeps every list in
/// the tag within the canonical encoding's sequence length bound.
pub const MAX_TEXT_BYTES: usize = 0x7fff_ffff;

/// Whether `bcs::from_bytes::<StructTag>` accepts these bytes.
pub uninterp spec fn struct_tag_decodes(bytes: Seq<u8>) -> bool;

/// The text that `StructTag`'s `Display` writes for the tag these bytes encode.
pub uninterp spec fn struct_tag_text_of(bytes: Seq<u8>) -> Seq<char>;

/// Whether move-core-types' `parse_type_tag` reads this text as a struct type.
pub uninterp spec fn struct_tag_parses(text: Seq<char>) -> bool;

/// The bytes that `bcs::to_bytes` writes for the struct tag this text reads as.
pub uninterp spec fn struct_tag_bytes_of(text: Seq<char>) -> Seq<u8>;

/// The number of `<` bytes in `b`.
pub open spec fn open_angles(b: Seq<u8>) -> nat
    decreases b.len(),
{
    if b.len() == 0 {
        0
    } else {
        open_angles(b.drop_last()) + if b.last() == 0x3cu8 {
            1nat
        } else {
            0nat
        }
    }
}

/// Why a type tag could not be converted.
pub enum TypeTagError {
    /// The bytes are not UTF-8 text.
    InvalidText,
    /// The text is not a struct type tag, or nests or runs beyond the bounds.
    MalformedTypeTag,
    /// The bytes are not the canonical encoding of a struct type tag.
    CorruptEncoding,
}

/// Relies on `std::str::from_utf8`: it accepts exactly the valid UTF-8 byte
/// sequences, and the text it returns is the one they encode.
#[verifier::external_body]
fn text_of_bytes(bytes: &[u8]) -> (r: Option<&str>)
    ensures
        r is Some <==> vstd::utf8::valid_utf8(bytes@),
        r matches Some(s) ==> s@ == vstd::utf8::decode_utf8(bytes@),
{
    std::str::from_utf8(bytes).ok()
}

/// Relies on `bcs::from_bytes::<StructTag>`, which succeeds on exactly the
/// canonical encodings of a struct tag (its container depth capped at 500,
/// which bounds the recursion), and on `StructTag`'s `Display`, which writes
/// the decoded tag as text.
#[verifier::external_body]
fn render_struct_tag(bytes: &[u8]) -> (r: Option<String>)
    ensures
        r is Some <==> struct_tag_decodes(bytes@),
        r matches Some(t) ==> t@ == struct_tag_text_of(bytes@),
{
    bcs::from_bytes::<StructTag>(bytes).ok().map(|t| t.to_string())
}

/// Relies on `move_core_types::parser::parse_type_tag`, taking only a
/// `TypeTag::Struct` result, and on `bcs::to_bytes` for the tag it reads.
/// The parser recurses once for each `<` it consumes, so the bound on `<`
/// bounds its recursion; within the bounds on nesting and length the encoder
/// does not fail.
#[verifier::external_body]
fn encode_struct_tag_text(text: &str) -> (r: Option<Vec<u8>>)
    requires
        open_angles(text.spec_bytes()) <= MAX_TYPE_NESTING,
        text.spec_bytes().len() <= MAX_TEXT_BYTES,
    ensures
        r is Some <==> struct_tag_parses(text@),
        r matches Some(b) ==> b@ == struct_tag_bytes_of(text@),
{
    match move_core_types::parser::parse_type_tag(text) {
        Ok(TypeTag::Struct(tag)) => bcs::to_bytes(&tag).ok(),
        _ => None,
    }
}

/// The number of `<` bytes in `b`.
fn count_open_angles(b: &[u8]) -> (r: usize)
    ensures
        r == open_angles(b@),
{
    let mut c: usize = 0;
    let mut i: usize = 0;
    while i < b.len()
        invariant
            0 <= i <= b@.len(),
            c == open_angles(b@.take(i as int)),
            c <= i,
        decreases b@.len() - i,
    {
        assert(b@.take(i as int + 1).drop_last() =~= b@.take(i as int));
        if b[i] == 0x3cu8 {
            c = c + 1;
        }
        i = i + 1;
    }
    assert(b@.take(i as int) =~= b@);
    c
}

/// Renders the canonical encoding of a struct type tag as its canonical text,
/// returned as UTF-8 bytes.
pub fn struct_tag_to_string(struct_tag: &[u8]) -> (r: Result<Vec<u8>, TypeTagError>)
    ensures
        r is Ok <==> struct_tag_decodes(struct_tag@),
        r is Err ==> r == Err::<Vec<u8>, TypeTagError>(TypeTagError::CorruptEncoding),
        r matches Ok(text) ==> vstd::utf8::valid_utf8(text@) && vstd::utf8::decode_utf8(text@)
            == struct_tag_text_of(struct_tag@),
{
    match render_struct_tag(struct_tag) {
        None => Err(TypeTagError::CorruptEncoding),
        Some(text) => {
            proof {
                vstd::utf8::encode_utf8_valid_utf8(text@);
            }
            Ok(vstd::slice::slice_to_vec(text.as_str().as_bytes()))
        },
    }
}

/// Reads the canonical text of a struct type tag, given as UTF-8 bytes, and
/// returns its canonical encoding. Text with more than `MAX_TYPE_NESTING`
/// `<`, or longer than `MAX_TEXT_BYTES`, is rejected before it is parsed.
pub fn struct_tag_from_string(struct_tag_str: &[u8]) -> (r: Result<Vec<u8>, TypeTagError>)
    ensures
        r == Err::<Vec<u8>, TypeTagError>(TypeTagError::InvalidText) <==> !vstd::utf8::valid_utf8(
            struct_tag_str@,
        ),
        r is Ok <==> vstd::utf8::valid_utf8(struct_tag_str@) && open_angles(struct_tag_str@)
            <= MAX_TYPE_NESTING && struct_tag_str@.len() <= MAX_TEXT_BYTES && struct_tag_parses(
            vstd::utf8::decode_utf8(struct_tag_str@),
        ),
        r matches Ok(b) ==> b@ == struct_tag_bytes_of(vstd::utf8::decode_utf8(struct_tag_str@)),
        r is Err ==> r == Err::<Vec<u8>, TypeTagError>(TypeTagError::InvalidText) || r == Err::<
            Vec<u8>,
            TypeTagError,
        >(TypeTagError::MalformedTypeTag),
{
    let text = match text_of_bytes(struct_tag_str) {
        None => return Err(TypeTagError::InvalidText),
        Some(text) => text,
    };
    if struct_tag_str.len() > MAX_TEXT_BYTES || count_open_angles(struct_tag_str)
        > MAX_TYPE_NESTING {
        return Err(TypeTagError::MalformedTypeTag);
    }
    proof {
        assert(text.spec_bytes() == struct_tag_str@);
    }
    match encode_struct_tag_text(text) {
        None => Err(TypeTagError::MalformedTypeTag),
        Some(bytes) => Ok(bytes),
    }
}

} // verus!
