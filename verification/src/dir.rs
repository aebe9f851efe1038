//! Search directories shared between modules, each with a status flag that
//! records whether the directory is known to exist.
use crate::path::{is_absolute_on, target_is_windows, Path, PathBuf};
use core::sync::atomic::AtomicU8;
use core::sync::atomic::Ordering;
use std::sync::Arc;
use vstd::prelude::*;

verus! {

/// What is known of a search directory on the target filesystem.
#[derive(Clone, Copy, Debug, PartialEq, Eq, Structural)]
pub enum DirStatus {
    /// Not checked yet.
    Unknown,
    /// Known to exist (or relative, so never checked).
    Existing,
    /// Checked and found missing.
    Missing,
}

/// The byte stored for a status in a directory's status flag.
pub open spec fn status_code(s: DirStatus) -> u8 {
    match s {
        DirStatus::Unknown => 0,
        DirStatus::Existing => 1,
        DirStatus::Missing => 2,
    }
}

/// The status a directory starts with on a Windows target (`windows`) or a
/// Unix-like one: absolute directories still have to be checked, relative
/// ones are taken as existing.
pub open spec fn initial_status(path: Seq<u8>, windows: bool) -> DirStatus {
    if is_absolute_on(path, windows) {
        DirStatus::Unknown
    } else {
        DirStatus::Existing
    }
}

impl DirStatus {
    /// The status a new directory at `path` starts with, on a Windows target
    /// (`windows`) or a Unix-like one.
    pub fn for_path(path: Path<'_>, windows: bool) -> (r: DirStatus)
        ensures
            r == initial_status(path@, windows),
    {
        let absolute = if windows {
            path.is_absolute_windows()
        } else {
            path.is_absolute_unix()
        };
        if absolute {
            DirStatus::Unknown
        } else {
            DirStatus::Existing
        }
    }

    /// The byte that stands for this status in a status flag.
    pub fn code(self) -> (r: u8)
        ensures
            r == status_code(self),
    {
        match self {
            DirStatus::Unknown => 0,
            DirStatus::Existing => 1,
            DirStatus::Missing => 2,
        }
    }

    /// The status that the byte `c` stands for in a status flag, if any.
    pub fn from_code(c: u8) -> (r: Option<DirStatus>)
        ensures
            match r {
                Some(s) => status_code(s) == c,
                None => forall|s: DirStatus| status_code(s) != c,
            },
    {
        if c == 0 {
            Some(DirStatus::Unknown)
        } else if c == 1 {
            Some(DirStatus::Existing)
        } else if c == 2 {
            Some(DirStatus::Missing)
        } else {
            None
        }
    }
}

/// Whether the byte `c` of a status flag stands for `s`.
fn code_is(c: u8, s: DirStatus) -> (r: bool)
    ensures
        r == (c == status_code(s)),
{
    match DirStatus::from_code(c) {
        Some(found) => found == s,
        None => false,
    }
}

/// A search directory: its path, its status flag, and the status the flag
/// was created with.
pub struct SearchDir {
    path: PathBuf,
    status: AtomicU8,
    start: Ghost<DirStatus>,
}

/// A search directory that several modules may share.
pub struct SharedDir(pub Arc<SearchDir>);

impl View for SharedDir {
    type V = Seq<u8>;

    closed spec fn view(&self) -> Seq<u8> {
        (*self.0).path@
    }
}

/// `Arc::clone`: another pointer to the same allocation, so the pointee is
/// the one `a` points to.
#[verifier::external_body]
fn clone_arc(a: &Arc<SearchDir>) -> (r: Arc<SearchDir>)
    ensures
        r == *a,
{
    Arc::clone(a)
}

impl Clone for SharedDir {
    fn clone(&self) -> (r: SharedDir)
        ensures
            r == *self,
    {
        SharedDir(clone_arc(&self.0))
    }
}

impl SharedDir {
    /// The status the directory's flag was created with.
    pub closed spec fn start_status(&self) -> DirStatus {
        (*self.0).start@
    }

    /// Creates an unshared directory for `path`; directories that are
    /// absolute on the target start unchecked, relative ones as existing.
    pub fn new(path: PathBuf) -> (r: SharedDir)
        ensures
            r@ == path@,
            r.start_status() == initial_status(path@, false) || r.start_status()
                == initial_status(path@, true),
    {
        SharedDir::new_for_target(path, target_is_windows())
    }

    /// Creates an unshared directory for `path`, with the status it starts
    /// with on a Windows target (`windows`) or a Unix-like one.
    pub fn new_for_target(path: PathBuf, windows: bool) -> (r: SharedDir)
        ensures
            r@ == path@,
            r.start_status() == initial_status(path@, windows),
    {
        let status = DirStatus::for_path(path.as_path(), windows);
        SharedDir(
            Arc::new(
                SearchDir { path, status: AtomicU8::new(status.code()), start: Ghost(status) },
            ),
        )
    }

    /// The directory's path.
    pub fn path(&self) -> (r: Path<'_>)
        ensures
            r@ == self@,
    {
        self.0.path.as_path()
    }

    /// Whether the directory was checked and found missing: whether the
    /// byte loaded from the status flag stands for `Missing` (`code_is`).
    ///
    /// The flag is shared by all holders of this directory and may change
    /// at any time; the loaded byte is not modelled, so no clause names it.
    pub fn is_missing(&self) -> bool {
        code_is(self.0.status.load(Ordering::Relaxed), DirStatus::Missing)
    }

    /// Whether the directory still has to be checked: whether the byte
    /// loaded from the shared status flag stands for `Unknown`
    /// (`code_is`), as for `is_missing`.
    pub fn needs_check(&self) -> bool {
        code_is(self.0.status.load(Ordering::Relaxed), DirStatus::Unknown)
    }

    /// Records that the directory exists.
    pub fn mark_existing(&self) {
        self.0.status.store(DirStatus::Existing.code(), Ordering::Relaxed);
    }

    /// Records that the directory is missing, unless it was already checked.
    pub fn mark_missing(&self) {
        let _ = self.0.status.compare_exchange(
            DirStatus::Unknown.code(),
            DirStatus::Missing.code(),
            Ordering::Relaxed,
            Ordering::Relaxed,
        );
    }
}

} // verus!
