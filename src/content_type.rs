use vstd::prelude::*;

verus! {

/// The MIME essence (`type/subtype`, without parameters) that the extension
/// table assigns to a path, `application/octet-stream` when none applies.
pub uninterp spec fn mime_essence(path: Seq<char>) -> Seq<char>;

/// Relies on `mime_guess::from_path(..).first_or_octet_stream()` and on
/// `mime::Mime::essence_str`: a lookup of the path's extension in a fixed
/// table, so the result depends on the path alone.
#[verifier::external_body]
fn guess_essence(path: &str) -> (r: String)
    ensures
        r@ == mime_essence(path@),
{
    mime_guess::from_path(path).first_or_octet_stream().essence_str().to_owned()
}

/// Infers the content type of a path from its filename extension.
pub fn resolve(path: &str) -> (r: String)
    ensures
        r@ == mime_essence(path@),
{
    guess_essence(path)
}

} // verus!
