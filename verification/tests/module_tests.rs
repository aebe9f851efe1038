use lib::dir::DirStatus;
use lib::search::{ModuleSearch, SearchPathPool};
use lib::{Path, PathBuf, PathString, SharedDir};
use std::sync::Arc;

fn bytes(p: &Path<'_>) -> Vec<u8> {
    p.as_bytes().to_vec()
}

#[test]
fn from_dynamic_keeps_tags() {
    let m = ModuleSearch::from_dynamic(
        Path::new("/opt/app/libx.so").to_path_buf(),
        Some("libx.so.1"),
        Some("$ORIGIN:/usr/lib/"),
        None,
    );
    assert_eq!(m.name(), b"libx.so");
    assert_eq!(m.path().as_bytes(), b"/opt/app/libx.so");
    assert_eq!(m.soname(), Some("libx.so.1"));
    let runpath: Vec<Vec<u8>> = m.runpath().unwrap().iter().map(bytes).collect();
    assert_eq!(runpath, vec![b"/opt/app".to_vec(), b"/usr/lib".to_vec()]);
    assert!(m.rpath().is_none());
    assert!(m.rpath_dirs().is_none());
}

#[test]
fn from_dynamic_does_not_share() {
    let a = ModuleSearch::from_dynamic(Path::new("/a.so").to_path_buf(), None, Some("/usr/lib"), None);
    let b = ModuleSearch::from_dynamic(Path::new("/b.so").to_path_buf(), None, Some("/usr/lib"), None);
    assert!(!Arc::ptr_eq(&a.runpath_dirs().unwrap()[0].0, &b.runpath_dirs().unwrap()[0].0));
}

#[test]
fn empty_and_new_have_no_tags() {
    let e = ModuleSearch::empty();
    assert_eq!(e.path().as_bytes(), b"");
    assert!(e.soname().is_none() && e.runpath().is_none() && e.rpath().is_none());
    let n = ModuleSearch::new(Path::new("dir/liby.so").to_path_buf());
    assert_eq!(n.name(), b"liby.so");
    assert!(n.runpath_dirs().is_none());
}

#[test]
fn pool_uses_lib_and_platform() {
    let mut pool = SearchPathPool::new();
    pool.set_lib("lib64").set_platform("x86_64");
    let m = pool.module_search(
        Path::new("/opt/a.so").to_path_buf(),
        None,
        None,
        Some("/$LIB:/p/$PLATFORM:/x/$LIB"),
    );
    let rpath: Vec<Vec<u8>> = m.rpath().unwrap().iter().map(bytes).collect();
    assert_eq!(
        rpath,
        vec![b"/lib64".to_vec(), b"/p/x86_64".to_vec(), b"/x/lib64".to_vec()]
    );
    let tokens = pool.tokens();
    let e = tokens.expand(Path::new("$LIB"), Path::new("/")).unwrap();
    assert_eq!(e.as_bytes(), b"lib64");
}

#[test]
fn pool_shares_between_runpath_and_rpath() {
    let mut pool = SearchPathPool::default();
    let m = pool.module_search(
        Path::new("/opt/a.so").to_path_buf(),
        None,
        Some("/usr/lib"),
        Some("/usr/lib/"),
    );
    let r = m.runpath_dirs().unwrap();
    let p = m.rpath_dirs().unwrap();
    assert!(Arc::ptr_eq(&r[0].0, &p[0].0));
}

#[test]
fn pool_skips_unexpandable_dirs() {
    let mut pool = SearchPathPool::new();
    let m = pool.module_search(
        Path::new("a.so").to_path_buf(),
        Some("a"),
        Some("$LIB:$ORIGIN"),
        None,
    );
    let runpath: Vec<Vec<u8>> = m.runpath().unwrap().iter().map(bytes).collect();
    assert_eq!(runpath, vec![b".".to_vec()]);
    assert_eq!(m.soname(), Some("a"));
}

#[test]
fn dir_status_lifecycle() {
    let abs = SharedDir::new(Path::new("/usr/lib").to_path_buf());
    assert!(abs.needs_check());
    assert!(!abs.is_missing());
    abs.mark_missing();
    assert!(abs.is_missing());
    assert!(!abs.needs_check());
    abs.mark_existing();
    assert!(!abs.is_missing());
    abs.mark_missing();
    assert!(!abs.is_missing());

    let rel = SharedDir::new(Path::new("lib").to_path_buf());
    assert!(!rel.needs_check());
    rel.mark_missing();
    assert!(!rel.is_missing());

    let copy = abs.clone();
    assert!(Arc::ptr_eq(&copy.0, &abs.0));
    assert_eq!(copy.path().as_bytes(), b"/usr/lib");
}

#[test]
fn dir_status_codes() {
    assert_eq!(DirStatus::for_path(Path::new("/x"), false), DirStatus::Unknown);
    assert_eq!(DirStatus::for_path(Path::new("x"), false), DirStatus::Existing);
    assert_eq!(DirStatus::for_path(Path::new("/x"), true), DirStatus::Existing);
    assert_eq!(DirStatus::for_path(Path::new("C:\\x"), true), DirStatus::Unknown);
    assert_eq!(DirStatus::for_path(Path::new("\\\\srv\\x"), true), DirStatus::Unknown);
    assert_eq!(DirStatus::Unknown.code(), 0);
    assert_eq!(DirStatus::Existing.code(), 1);
    assert_eq!(DirStatus::Missing.code(), 2);
}

#[test]
fn intern_returns_existing_dir() {
    let mut dirs: Vec<SharedDir> = Vec::new();
    let a = SearchPathPool::intern(&mut dirs, Path::new("/a").to_path_buf());
    let b = SearchPathPool::intern(&mut dirs, Path::new("/b").to_path_buf());
    let a2 = SearchPathPool::intern(&mut dirs, Path::new("/a").to_path_buf());
    assert_eq!(dirs.len(), 2);
    assert!(Arc::ptr_eq(&a.0, &a2.0));
    assert!(!Arc::ptr_eq(&a.0, &b.0));
}

#[test]
fn path_strings_and_buffers() {
    let mut s = PathString::new();
    s.push(Path::new("ab").as_path_str());
    s.push(Path::new("/c").as_path_str());
    assert_eq!(s.as_bytes(), b"ab/c");
    s.reserve(10);
    assert_eq!(s.as_path_str().as_bytes(), b"ab/c");
    let copy = s.as_path_str().to_path_string();
    s.clear();
    assert_eq!(s.into_bytes(), Vec::<u8>::new());
    let mut buf = PathBuf::from_path_string(copy);
    buf.push(Path::new("d"));
    assert_eq!(buf.as_bytes(), b"ab/cd");
    buf.set_joined(Path::new("x\\"), Path::new("y"));
    assert_eq!(buf.as_path().as_bytes(), b"x\\y");
    assert_eq!(buf.into_bytes(), b"x\\y".to_vec());
    assert_eq!(PathBuf::new().as_bytes(), b"");
}

#[test]
fn intern_returns_first_match() {
    let first = SharedDir::new(Path::new("/a").to_path_buf());
    let second = SharedDir::new(Path::new("/a").to_path_buf());
    let mut dirs = vec![first.clone(), second];
    let found = SearchPathPool::intern(&mut dirs, Path::new("/a").to_path_buf());
    assert_eq!(dirs.len(), 2);
    assert!(Arc::ptr_eq(&found.0, &first.0));
}

#[test]
fn status_codes_decode() {
    assert_eq!(DirStatus::from_code(0), Some(DirStatus::Unknown));
    assert_eq!(DirStatus::from_code(1), Some(DirStatus::Existing));
    assert_eq!(DirStatus::from_code(2), Some(DirStatus::Missing));
    assert_eq!(DirStatus::from_code(3), None);
    assert_eq!(DirStatus::from_code(255), None);
}

#[test]
fn new_for_target_sets_start_status() {
    let unix_abs = SharedDir::new_for_target(Path::new("/usr/lib").to_path_buf(), false);
    assert!(unix_abs.needs_check());
    let win_rel = SharedDir::new_for_target(Path::new("/usr/lib").to_path_buf(), true);
    assert!(!win_rel.needs_check());
    assert!(!win_rel.is_missing());
    let win_abs = SharedDir::new_for_target(Path::new("C:\\lib").to_path_buf(), true);
    assert!(win_abs.needs_check());
    assert_eq!(win_abs.path().as_bytes(), b"C:\\lib");
}
