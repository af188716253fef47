//! Paths as the platform has them. What a path holds is known to it alone, so
//! this module names that, and says of each operation on paths that the library
//! uses what it makes of it.

use std::path::{Path, PathBuf};
use vstd::prelude::*;

verus! {

/// `std::path::Path`.
#[verifier::external_type_specification]
#[verifier::external_body]
pub struct ExPath(std::path::Path);

/// `std::path::PathBuf`.
#[verifier::external_type_specification]
#[verifier::external_body]
pub struct ExPathBuf(std::path::PathBuf);

/// `std::io::Error`.
#[verifier::external_type_specification]
#[verifier::external_body]
pub struct ExIoError(std::io::Error);

/// A part of a path, as `std::path::Component` has it. Two parts are the same
/// exactly where `Component` compares them as equal.
pub enum PathPart {
    Prefix(Seq<u8>),
    Root,
    Current,
    Parent,
    Name(Seq<u8>),
}

/// The path that a `PathBuf` holds.
pub uninterp spec fn path_of(buf: &PathBuf) -> &Path;

/// The text of a path, in the encoding that the platform keeps it in, which is
/// UTF-8 wherever the text is Unicode.
pub uninterp spec fn path_bytes(path: &Path) -> Seq<u8>;

/// The parts that a path consists of.
pub uninterp spec fn path_parts(path: &Path) -> Seq<PathPart>;

/// The text that a path gets when it is made absolute, or none where that fails, in
/// surroundings (the platform, the current directory) that are put in some form as
/// bytes too.
pub uninterp spec fn absolute_form(surroundings: Seq<u8>, path: Seq<u8>) -> Option<Seq<u8>>;

/// What a path reads as, where it is shown to somebody.
pub uninterp spec fn path_text(path: &Path) -> Seq<char>;

/// Whether these are the parts of a path that starts at the top.
pub open spec fn rooted(parts: Seq<PathPart>) -> bool {
    parts.len() > 0 && (parts[0] is Root || parts[0] is Prefix)
}

/// Whether `absolute` is what `path` can become when it is made absolute.
pub open spec fn made_absolute(path: &Path, absolute: &Path) -> bool {
    &&& path_bytes(path).len() > 0
    &&& rooted(path_parts(absolute))
    &&& exists|surroundings: Seq<u8>|
        #[trigger] absolute_form(surroundings, path_bytes(path)) == Some(path_bytes(absolute))
}

/// Whether there are surroundings in which `path` cannot be made absolute.
pub open spec fn can_fail(path: &Path) -> bool {
    exists|surroundings: Seq<u8>|
        #[trigger] absolute_form(surroundings, path_bytes(path)) is None
}

/// Whether `path` is `base`, or stands below it.
pub open spec fn at_or_below(path: &Path, base: &Path) -> bool {
    path_parts(base).is_prefix_of(path_parts(path))
}

/// Whether a path with these parts is in a directory: it is neither empty nor
/// the top of everything.
pub open spec fn has_parent(parts: Seq<PathPart>) -> bool {
    parts.len() > 0 && !(parts.last() is Root || parts.last() is Prefix)
}

/// Whether `text` is what `path` reads as, which is what it is wherever that is
/// Unicode.
pub open spec fn reads_as(path: &Path, text: Seq<char>) -> bool {
    &&& text == path_text(path)
    &&& vstd::utf8::valid_utf8(path_bytes(path)) ==> text == vstd::utf8::decode_utf8(path_bytes(path))
}

/// `PathBuf::as_path`: the path that the buffer holds.
pub assume_specification[ std::path::PathBuf::as_path ](path: &std::path::PathBuf) -> (r: &std::path::Path)
    ensures
        r == path_of(path),
;

/// `Path::to_path_buf`: a buffer that holds the path.
pub assume_specification[ std::path::Path::to_path_buf ](path: &std::path::Path) -> (r: std::path::PathBuf)
    ensures
        path_of(&r) == path,
;

/// `std::path::absolute`. An empty path is an error, and so is a current
/// directory that cannot be had. Any other path comes out starting at the top,
/// as a function of what it was and of the surroundings; and it fails only where
/// that function gives nothing. Which of the two outcomes a path has that is not
/// empty is not said: it is up to the surroundings.
#[verifier::external_body]
pub(crate) fn absolute(path: &Path) -> (r: Result<PathBuf, std::io::Error>)
    ensures
        r matches Ok(absolute) ==> path_bytes(path).len() > 0,
        r matches Ok(absolute) ==> rooted(path_parts(path_of(&absolute))),
        r matches Ok(absolute) ==> exists|surroundings: Seq<u8>|
            #[trigger] absolute_form(surroundings, path_bytes(path)) == Some(
                path_bytes(path_of(&absolute)),
            ),
        r is Err ==> exists|surroundings: Seq<u8>|
            #[trigger] absolute_form(surroundings, path_bytes(path)) is None,
{
    std::path::absolute(path)
}

/// `Path::starts_with`: whether the parts of `base` are the first parts of
/// `path`, compared part by part.
#[verifier::external_body]
pub(crate) fn starts_with(path: &Path, base: &Path) -> (r: bool)
    ensures
        r == at_or_below(path, base),
{
    path.starts_with(base)
}

/// `Path::parent`: the path without its last part. There is none when that part
/// is the top, or when there is no part at all.
#[verifier::external_body]
pub(crate) fn parent(path: &Path) -> (r: Option<PathBuf>)
    ensures
        r is Some == has_parent(path_parts(path)),
        r matches Some(parent) ==> path_parts(path_of(&parent)) == path_parts(path).drop_last(),
{
    path.parent().map(Path::to_path_buf)
}

/// `OsString::push` on the text of a path: `suffix` comes behind it.
#[verifier::external_body]
pub(crate) fn with_suffix(path: &Path, suffix: &str) -> (r: PathBuf)
    ensures
        path_bytes(path_of(&r)) == path_bytes(path) + vstd::utf8::encode_utf8(suffix@),
{
    let mut name = path.as_os_str().to_os_string();
    name.push(suffix);
    PathBuf::from(name)
}

/// `Path::display`, written out: what the path reads as, which is the path itself
/// where it is Unicode. What stands for the rest of a path that is not is up to the
/// platform, and is only named.
#[verifier::external_body]
pub(crate) fn shown(path: &Path) -> (r: String)
    ensures
        r@ == path_text(path),
        vstd::utf8::valid_utf8(path_bytes(path)) ==> r@ == vstd::utf8::decode_utf8(
            path_bytes(path),
        ),
{
    path.display().to_string()
}

} // verus!
