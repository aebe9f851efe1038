use lib::path::target_is_windows;
use lib::Path;

#[test]
fn parent_and_file_name_split_the_path() {
    for s in ["a/b/c.so", "x\\y", "/top", "noslash", "dir/"] {
        let p = Path::new(s);
        let parent = p.parent().as_bytes().to_vec();
        let name = p.file_name().to_vec();
        if !p.has_dir_separator() {
            assert_eq!(parent, b".".to_vec());
            assert_eq!(name, s.as_bytes().to_vec());
        } else if parent.len() == 1 && (s.starts_with('/') || s.starts_with('\\')) && s[1..].find(['/', '\\']).is_none() {
            assert_eq!([parent, name].concat(), s.as_bytes().to_vec());
        } else {
            let sep = s.as_bytes()[parent.len()];
            assert_eq!([parent, vec![sep], name].concat(), s.as_bytes().to_vec());
        }
    }
}

#[test]
fn parent_edge_cases() {
    assert_eq!(Path::new("\\x").parent().as_bytes(), b"\\");
    assert_eq!(Path::new("a\\b/c").parent().as_bytes(), b"a\\b");
    assert_eq!(Path::new("dir/").parent().as_bytes(), b"dir");
    assert_eq!(Path::new("dir/").file_name(), b"");
    assert_eq!(Path::new("").parent().as_bytes(), b".");
}

#[test]
fn join_then_file_name_and_parent() {
    let j = Path::new("/usr/lib").join(Path::new("libc.so"));
    assert_eq!(j.as_path().file_name(), b"libc.so");
    assert_eq!(j.as_path().parent().as_bytes(), b"/usr/lib");
    let k = Path::new("").join(Path::new("a"));
    assert_eq!(k.as_bytes(), b"a");
    let w = Path::new("C:\\").join(Path::new("a"));
    assert_eq!(w.as_bytes(), b"C:\\a");
}

#[test]
fn absolute_paths() {
    assert!(Path::new("/x").is_absolute_unix());
    assert!(!Path::new("x/y").is_absolute_unix());
    assert!(!Path::new("").is_absolute_unix());
    assert!(!Path::new("C:\\x").is_absolute_unix());
    assert!(Path::new("\\\\server\\share").is_absolute_windows());
    assert!(Path::new("C:/x").is_absolute_windows());
    assert!(!Path::new("C:x").is_absolute_windows());
    assert!(!Path::new("/x").is_absolute_windows());
    assert!(!Path::new("x").has_dir_separator());
    assert!(Path::new("a\\b").has_dir_separator());
}

#[test]
fn is_absolute_follows_the_target() {
    let windows = target_is_windows();
    assert_eq!(windows, std::path::Path::new("C:\\x").is_absolute());
    for s in ["/usr/lib", "C:\\lib", "\\\\srv\\x", "lib", ""] {
        let p = Path::new(s);
        let expected = if windows {
            p.is_absolute_windows()
        } else {
            p.is_absolute_unix()
        };
        assert_eq!(p.is_absolute(), expected);
    }
}
