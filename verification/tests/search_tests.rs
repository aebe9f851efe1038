use lib::search::SearchPathPool;
use lib::Path;
use std::sync::Arc;

#[test]
fn dirs_are_shared() {
    let mut paths = SearchPathPool::default();
    let first = paths.module_search(
        Path::new("/opt/app/first.so").to_path_buf(),
        None,
        Some("$ORIGIN/lib:$ORIGIN/lib/:/usr/lib/"),
        Some("/ignored"),
    );
    let second = paths.module_search(
        Path::new("/opt/app/second.so").to_path_buf(),
        None,
        Some("$ORIGIN/lib:/usr/lib"),
        None,
    );
    let first = first.runpath_dirs().unwrap();
    let second = second.runpath_dirs().unwrap();

    assert_eq!(first.len(), 2);
    assert_eq!(first[0].path().as_bytes(), b"/opt/app/lib");
    assert_eq!(first[1].path().as_bytes(), b"/usr/lib");
    assert!(Arc::ptr_eq(&first[0].0, &second[0].0));
    assert!(Arc::ptr_eq(&first[1].0, &second[1].0));
}
