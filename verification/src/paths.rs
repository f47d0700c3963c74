//! The standard library's path syntax and case mapping, as far as the file
//! records depend on them.
//!
//! No function of this module is proved. Each hands its argument to one
//! function of the standard library, and its contract gives the result a name,
//! so that the rules built on top can say exactly which text they used. The
//! extension alone is stated, over the name of the final component, as the
//! documentation of the standard library defines it. The names stand for what
//! the standard library computes where the crate is built: the path syntax is
//! that of the platform.

use vstd::prelude::*;

verus! {

/// The final component of `path` as `std::path::Path::file_name` reports it.
pub uninterp spec fn path_file_name(path: Seq<char>) -> Option<Seq<char>>;

/// `path` without its final component as `std::path::Path::parent` reports it.
pub uninterp spec fn path_parent(path: Seq<char>) -> Option<Seq<char>>;

/// The place of the last dot in `name`, or -1 where it holds none.
pub open spec fn last_dot(name: Seq<char>) -> int
    decreases name.len(),
{
    if name.len() == 0 {
        -1
    } else if name.last() == '.' {
        name.len() - 1
    } else {
        last_dot(name.drop_last())
    }
}

/// The extension of a file name: what follows its last dot. A name without a
/// dot has none, and neither has a name whose only dot is its first
/// character.
pub open spec fn extension_of(name: Seq<char>) -> Option<Seq<char>> {
    if last_dot(name) <= 0 {
        None
    } else {
        Some(name.skip(last_dot(name) + 1))
    }
}

/// The extension of the final component of `path`, and none where the path has
/// no such component.
pub open spec fn path_extension(path: Seq<char>) -> Option<Seq<char>> {
    match path_file_name(path) {
        Some(name) => extension_of(name),
        None => None,
    }
}

/// What `last_dot` returns: the place of a dot behind which no dot follows, or
/// -1 where the name holds no dot at all.
pub proof fn lemma_last_dot(name: Seq<char>)
    ensures
        -1 <= last_dot(name) < name.len(),
        last_dot(name) >= 0 ==> name[last_dot(name)] == '.',
        forall|i: int| last_dot(name) < i < name.len() ==> name[i] != '.',
    decreases name.len(),
{
    if name.len() > 0 && name.last() != '.' {
        let front = name.drop_last();
        lemma_last_dot(front);
        assert forall|i: int| last_dot(name) < i < name.len() implies name[i] != '.' by {
            if i < front.len() {
                assert(front[i] == name[i]);
            }
        }
        if last_dot(name) >= 0 {
            assert(front[last_dot(name)] == name[last_dot(name)]);
        }
    }
}

/// Whether `base` is a prefix of `path`, component by component, as
/// `std::path::Path::starts_with` decides it.
pub uninterp spec fn path_starts_with(path: Seq<char>, base: Seq<char>) -> bool;

/// The lowercase form of `text` as `str::to_lowercase` computes it.
pub uninterp spec fn lowercase(text: Seq<char>) -> Seq<char>;

/// Calls `std::path::Path::file_name` on `path`. Trusted: the result is the text
/// of the component that the standard library returns, or `None` where it
/// returns none; `path_file_name` is the name of that result.
#[verifier::external_body]
pub(crate) fn file_name(path: &str) -> (name: Option<String>)
    ensures
        match name {
            Some(text) => path_file_name(path@) == Some(text@),
            None => path_file_name(path@).is_none(),
        },
{
    std::path::Path::new(path).file_name().and_then(|name| name.to_str()).map(
        |name| name.to_string(),
    )
}

/// Calls `std::path::Path::parent` on `path`. Trusted: the result is the text of
/// the path that the standard library returns, or `None` where it returns none;
/// `path_parent` is the name of that result.
#[verifier::external_body]
pub(crate) fn parent(path: &str) -> (dir: Option<String>)
    ensures
        match dir {
            Some(text) => path_parent(path@) == Some(text@),
            None => path_parent(path@).is_none(),
        },
{
    std::path::Path::new(path).parent().and_then(|dir| dir.to_str()).map(|dir| dir.to_string())
}

/// Calls `std::path::Path::extension` on `path`. Trusted: the result is the
/// extension of what `std::path::Path::file_name` returns for the path, as the
/// documentation defines it: none where there is no file name, none where the
/// name holds no dot, none where its only dot is its first character, and else
/// what follows its last dot.
#[verifier::external_body]
pub(crate) fn extension(path: &str) -> (ext: Option<String>)
    ensures
        match ext {
            Some(text) => path_extension(path@) == Some(text@),
            None => path_extension(path@).is_none(),
        },
{
    std::path::Path::new(path).extension().and_then(|ext| ext.to_str()).map(
        |ext| ext.to_string(),
    )
}

/// Calls `std::path::Path::starts_with` on `path` with `base`. Trusted: the
/// result is the standard library's answer; `path_starts_with` is its name.
#[verifier::external_body]
pub(crate) fn starts_with(path: &str, base: &str) -> (found: bool)
    ensures
        found == path_starts_with(path@, base@),
{
    std::path::Path::new(path).starts_with(std::path::Path::new(base))
}

/// Calls `str::to_lowercase` on `text`. Trusted: the result is the string that
/// the standard library returns; `lowercase` is its name.
#[verifier::external_body]
pub(crate) fn to_lowercase(text: &str) -> (lower: String)
    ensures
        lower@ == lowercase(text@),
{
    text.to_lowercase()
}

} // verus!
