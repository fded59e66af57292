//! What `std::path::Path` reads off a path, and `str::to_lowercase` and
//! `str::to_uppercase`: the
//! few facts about paths the exports and the SVG writer decide on.

use vstd::prelude::*;

use crate::text::opt_chars;

verus! {

/// The extension `Path::extension` reads off a path: what follows the last
/// `.` of its file name, if any.
pub uninterp spec fn path_extension(path: Seq<char>) -> Option<Seq<char>>;

/// The file stem `Path::file_stem` reads off a path.
pub uninterp spec fn path_file_stem(path: Seq<char>) -> Option<Seq<char>>;

/// The parent `Path::parent` reads off a path.
pub uninterp spec fn path_parent(path: Seq<char>) -> Option<Seq<char>>;

/// `base` with `name` appended as `Path::join` writes it.
pub uninterp spec fn path_join(base: Seq<char>, name: Seq<char>) -> Seq<char>;

/// `str::to_lowercase` of a text: its Unicode lowercase, character by
/// character except where the mapping depends on the neighbours (a capital
/// sigma ending a word becomes the final sigma).
pub uninterp spec fn lowercased(s: Seq<char>) -> Seq<char>;

/// `str::to_uppercase` of a text: each character's Unicode uppercase
/// mapping.
pub uninterp spec fn uppercased(s: Seq<char>) -> Seq<char>;

/// `Path::extension` of `path`, as text.
#[verifier::external_body]
pub fn extension_of(path: &str) -> (r: Option<String>)
    ensures
        opt_chars(r) == path_extension(path@),
{
    std::path::Path::new(path).extension().and_then(|e| e.to_str()).map(|e| e.to_string())
}

/// `Path::file_stem` of `path`, as text.
#[verifier::external_body]
pub fn file_stem_of(path: &str) -> (r: Option<String>)
    ensures
        opt_chars(r) == path_file_stem(path@),
{
    std::path::Path::new(path).file_stem().and_then(|e| e.to_str()).map(|e| e.to_string())
}

/// `Path::parent` of `path`, as text.
#[verifier::external_body]
pub fn parent_of(path: &str) -> (r: Option<String>)
    ensures
        opt_chars(r) == path_parent(path@),
{
    std::path::Path::new(path).parent().and_then(|e| e.to_str()).map(|e| e.to_string())
}

/// `Path::join` of `base` and `name`, as text.
#[verifier::external_body]
pub fn joined_path(base: &str, name: &str) -> (r: String)
    ensures
        r@ == path_join(base@, name@),
{
    std::path::Path::new(base).join(name).to_string_lossy().into_owned()
}

/// `str::to_uppercase` of `s`.
#[verifier::external_body]
pub fn uppercase_of(s: &str) -> (r: String)
    ensures
        r@ == uppercased(s@),
{
    s.to_uppercase()
}

/// `str::to_lowercase` of `s`.
#[verifier::external_body]
pub fn lowercase_of(s: &str) -> (r: String)
    ensures
        r@ == lowercased(s@),
{
    s.to_lowercase()
}

} // verus!
