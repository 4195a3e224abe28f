//! Whole objects, parsed by `serde_json`.
use vstd::prelude::*;

verus! {

/// Declares `serde_json::Map`.
#[verifier::external_type_specification]
#[verifier::external_body]
#[verifier::reject_recursive_types(K)]
#[verifier::reject_recursive_types(V)]
pub struct ExMap<K, V>(serde_json::Map<K, V>);

/// Declares `serde_json::Value`.
#[verifier::external_type_specification]
#[verifier::external_body]
pub struct ExValue(serde_json::Value);

/// Declares `serde_json::Error`.
#[verifier::external_type_specification]
#[verifier::external_body]
pub struct ExError(serde_json::Error);

/// What `serde_json::from_slice` makes of a text that should be a JSON object.
pub uninterp spec fn parsed_object(text: Seq<u8>) -> Result<
    serde_json::Map<String, serde_json::Value>,
    serde_json::Error,
>;

/// The text that `Debug` gives for an error of `serde_json`.
pub uninterp spec fn object_complaint(error: serde_json::Error) -> Seq<char>;

/// `serde_json::from_slice`, for an object; the result is named by
/// [`parsed_object`].
#[verifier::external_body]
pub(crate) fn parse_object(text: &[u8]) -> (r: Result<
    serde_json::Map<String, serde_json::Value>,
    serde_json::Error,
>)
    ensures
        r == parsed_object(text@),
{
    serde_json::from_slice(text)
}

/// `Debug` of `serde_json::Error`; the text is named by [`object_complaint`].
#[verifier::external_body]
pub(crate) fn show_object_error(error: &serde_json::Error) -> (r: String)
    ensures
        r@ == object_complaint(*error),
{
    format!("{:?}", error)
}

} // verus!
