use vstd::prelude::*;
use vstd::string::StrSliceExecFns;

verus! {

/// The path separator that a request URL may start with.
pub const SEPARATOR: char = '/';

/// What `rel` becomes once joined onto `root` by the platform's path rules.
pub uninterp spec fn joined(root: Seq<char>, rel: Seq<char>) -> Seq<char>;

/// Relies on `std::path::Path::join`: the platform's rule for adjoining a
/// path to another, which depends on the two strings alone.
#[verifier::external_body]
fn join_path(root: &str, rel: &str) -> (r: String)
    ensures
        r@ == joined(root@, rel@),
{
    std::path::Path::new(root).join(rel).display().to_string()
}

/// `url` with one leading separator removed, if it has one.
pub open spec fn strip_separator(url: Seq<char>) -> Seq<char> {
    if url.len() > 0 && url[0] == SEPARATOR {
        url.drop_first()
    } else {
        url
    }
}

/// Removes a single leading separator, so that `/a/b` and `a/b` name the
/// same file.
pub fn strip_leading_separator(url: &str) -> (r: String)
    ensures
        r@ == strip_separator(url@),
{
    let n = url.unicode_len();
    if n > 0 && url.get_char(0) == SEPARATOR {
        url.substring_char(1, n).to_owned()
    } else {
        url.to_owned()
    }
}

/// The store key of the file at relative path `rel` under `root`.
pub fn asset_key(root: &str, rel: &str) -> (r: String)
    ensures
        r@ == joined(root@, rel@),
{
    join_path(root, rel)
}

/// The store key that a request URL asks for.
pub open spec fn request_key(root: Seq<char>, url: Seq<char>) -> Seq<char> {
    joined(root, strip_separator(url))
}

/// Joins a request URL, less its leading separator, onto `root`.
pub fn key_for_url(root: &str, url: &str) -> (r: String)
    ensures
        r@ == request_key(root@, url@),
{
    let rel = strip_leading_separator(url);
    join_path(root, rel.as_str())
}

} // verus!
