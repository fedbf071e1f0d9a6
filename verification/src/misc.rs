use vstd::prelude::*;

verus! {

#[verifier::external_type_specification]
#[verifier::external_body]
pub struct ExPathBuf(std::path::PathBuf);

/// Relies on std::path::PathBuf::from: builds an owned path from text.
#[verifier::external_body]
fn pathbuf_from(s: &str) -> std::path::PathBuf {
    std::path::PathBuf::from(s)
}

/// Relies on std::path::Path::is_dir: asks the filesystem whether the path is
/// an existing directory; the answer depends on what is on disk.
#[verifier::external_body]
fn pathbuf_is_dir(p: &std::path::PathBuf) -> bool {
    p.is_dir()
}

/// Relies on std::path::PathBuf::pop: drops the path's last component.
#[verifier::external_body]
fn pathbuf_pop(p: &mut std::path::PathBuf) -> bool {
    p.pop()
}

/// Relies on std::path::PathBuf::push: appends a component; an absolute
/// argument replaces the whole path.
#[verifier::external_body]
fn pathbuf_push(p: &mut std::path::PathBuf, s: &str) {
    p.push(s)
}

/// Relies on std::path::Path::canonicalize: resolves the path on the
/// filesystem; the outcome depends on what is on disk.
#[verifier::external_body]
fn pathbuf_canonicalize(p: &std::path::PathBuf) -> Option<std::path::PathBuf> {
    p.canonicalize().ok()
}

/// Relies on std::path::Path::to_str: the path as text, when it is valid
/// Unicode.
#[verifier::external_body]
fn pathbuf_to_string(p: &std::path::PathBuf) -> Option<String> {
    p.to_str().map(|s| s.to_owned())
}

/// Why a relative path could not be turned into an absolute one.
#[derive(Debug, Clone, Copy, PartialEq, Eq, Structural)]
pub enum PathError {
    /// The joined path could not be resolved on the filesystem.
    Unresolvable,
    /// The resolved path is not valid Unicode text.
    NotText,
}

/// Turns `relative` into an absolute path, anchored at `base`: when `base` is
/// not an existing directory its last component is dropped first, then
/// `relative` is appended and the result is resolved on the filesystem.
pub fn relative2absolute(relative: &str, base: &str) -> (r: Result<String, PathError>) {
    let mut path = pathbuf_from(base);
    if !pathbuf_is_dir(&path) {
        let _ = pathbuf_pop(&mut path);
    }
    pathbuf_push(&mut path, relative);
    match pathbuf_canonicalize(&path) {
        None => Err(PathError::Unresolvable),
        Some(resolved_path) => match pathbuf_to_string(&resolved_path) {
            None => Err(PathError::NotText),
            Some(text) => Ok(text),
        },
    }
}

} // verus!
