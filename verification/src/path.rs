//! Resource paths: where in a project a `res://` path points.

use std::path::PathBuf;
use vstd::prelude::*;
use vstd::string::StringSliceAdditionalSpecFns;
use crate::bytes::text;

verus! {

/// A path that does not begin as a resource path must.
#[derive(Clone, Copy, Debug, PartialEq, Eq, Structural)]
pub enum PathError {
    NotAResourcePath,
}

pub open spec fn has_prefix(s: Seq<u8>, prefix: Seq<u8>) -> bool {
    prefix.len() <= s.len() && s.subrange(0, prefix.len() as int) == prefix
}

pub open spec fn has_suffix(s: Seq<u8>, suffix: Seq<u8>) -> bool {
    suffix.len() <= s.len() && s.subrange(s.len() - suffix.len(), s.len() as int) == suffix
}

/// `s` without `prefix` at its beginning, as often as it stands there.
pub open spec fn strip_prefixes(s: Seq<u8>, prefix: Seq<u8>) -> Seq<u8>
    decreases s.len(),
{
    if prefix.len() > 0 && has_prefix(s, prefix) {
        strip_prefixes(s.skip(prefix.len() as int), prefix)
    } else {
        s
    }
}

/// Whether `s` begins with `prefix`.
pub fn starts_with(s: &[u8], prefix: &[u8]) -> (r: bool)
    ensures
        r == has_prefix(s@, prefix@),
{
    if prefix.len() > s.len() {
        return false;
    }
    let mut i: usize = 0;
    while i < prefix.len()
        invariant
            i <= prefix.len() <= s.len(),
            forall|k: int| 0 <= k < i ==> s@[k] == prefix@[k],
        decreases prefix.len() - i,
    {
        if s[i] != prefix[i] {
            assert(s@.subrange(0, prefix@.len() as int)[i as int] != prefix@[i as int]);
            return false;
        }
        i = i + 1;
    }
    assert(s@.subrange(0, prefix@.len() as int) =~= prefix@);
    true
}

/// Whether `s` ends with `suffix`.
pub fn ends_with(s: &[u8], suffix: &[u8]) -> (r: bool)
    ensures
        r == has_suffix(s@, suffix@),
{
    if suffix.len() > s.len() {
        return false;
    }
    let start = s.len() - suffix.len();
    let mut i: usize = 0;
    while i < suffix.len()
        invariant
            i <= suffix.len() <= s.len(),
            start == s.len() - suffix.len(),
            forall|k: int| 0 <= k < i ==> s@[start + k] == suffix@[k],
        decreases suffix.len() - i,
    {
        if s[start + i] != suffix[i] {
            assert(s@.subrange(s@.len() - suffix@.len(), s@.len() as int)[i as int]
                != suffix@[i as int]);
            return false;
        }
        i = i + 1;
    }
    assert(s@.subrange(s@.len() - suffix@.len(), s@.len() as int) =~= suffix@);
    true
}

/// Whether `path` names a tile set file: a text resource, by its ending.
pub fn is_tile_set_path(path: &str) -> (r: bool)
    ensures
        r == has_suffix(path.spec_bytes(), text(".tres")),
{
    ends_with(path.as_bytes(), ".tres".as_bytes())
}

/// `str::trim_start_matches` with a string as pattern: the slice of `s` that is left when
/// `prefix` has been taken from its beginning as often as it stands there. The pattern
/// must not be empty.
#[verifier::external_body]
fn trim_start_matches<'a>(s: &'a str, prefix: &str) -> (r: &'a str)
    requires
        prefix.spec_bytes().len() > 0,
    ensures
        r.spec_bytes() == strip_prefixes(s.spec_bytes(), prefix.spec_bytes()),
{
    s.trim_start_matches(prefix)
}

/// A path of the file system.
#[verifier::external_type_specification]
#[verifier::external_body]
pub struct ExPathBuf(std::path::PathBuf);

/// `Path::join`: `base` extended by `relative`, as the platform joins paths. Nothing is
/// claimed of the path that comes out.
#[verifier::external_body]
fn join(base: &PathBuf, relative: &str) -> PathBuf {
    base.join(relative)
}

/// The part of a resource path behind its `res://`, which is relative to the project.
/// A path that does not begin with `res://` is refused.
pub fn resource_relative_path(godot_path: &str) -> (r: Result<&str, PathError>)
    ensures
        match r {
            Ok(relative) => has_prefix(godot_path.spec_bytes(), text("res://"))
                && relative.spec_bytes() == strip_prefixes(
                godot_path.spec_bytes(),
                text("res://"),
            ),
            Err(e) => !has_prefix(godot_path.spec_bytes(), text("res://")),
        },
{
    if !starts_with(godot_path.as_bytes(), "res://".as_bytes()) {
        return Err(PathError::NotAResourcePath);
    }
    proof {
        reveal_strlit("res://");
        broadcast use vstd::string::is_ascii_spec_bytes;
        assert(vstd::string::is_ascii("res://"));
    }
    Ok(trim_start_matches(godot_path, "res://"))
}

/// Where in the project at `project_path` the resource path `godot_path` points: the
/// project's path joined with what `resource_relative_path` gives.
pub fn godot_path_to_absolute(project_path: &PathBuf, godot_path: &str) -> (r: Result<
    PathBuf,
    PathError,
>)
    ensures
        r is Ok <==> has_prefix(godot_path.spec_bytes(), text("res://")),
{
    match resource_relative_path(godot_path) {
        Err(e) => Err(e),
        Ok(relative) => Ok(join(project_path, relative)),
    }
}

} // verus!
