use lib::expand::{token_len, PathTokens};
use lib::search::{expand_dirs, normalize_dir};
use lib::Path;

fn expand(tokens: &PathTokens, value: &str, origin: &str) -> Option<Vec<u8>> {
    tokens
        .expand(Path::new(value), Path::new(origin))
        .map(|p| p.into_bytes())
}

#[test]
fn token_len_forms() {
    assert_eq!(token_len(b"{ORIGIN}/x", "ORIGIN"), Some(8));
    assert_eq!(token_len(b"ORIGIN/x", "ORIGIN"), Some(6));
    assert_eq!(token_len(b"ORIGIN", "ORIGIN"), Some(6));
    assert_eq!(token_len(b"ORIGIN_x", "ORIGIN"), None);
    assert_eq!(token_len(b"ORIGINs", "ORIGIN"), None);
    assert_eq!(token_len(b"ORIG", "ORIGIN"), None);
    assert_eq!(token_len(b"{ORIGIN", "ORIGIN"), None);
    assert_eq!(token_len(b"{ORIGIN}x", "ORIGIN"), Some(8));
    assert_eq!(token_len(b"LIB.so", "LIB"), Some(3));
}

#[test]
fn expand_replaces_tokens() {
    let mut tokens = PathTokens::new();
    tokens.set_lib("lib64");
    tokens.set_platform("x86_64");
    assert_eq!(
        expand(&tokens, "$ORIGIN/../$LIB", "/opt/app"),
        Some(b"/opt/app/../lib64".to_vec())
    );
    assert_eq!(
        expand(&tokens, "${ORIGIN}lib", "/opt"),
        Some(b"/optlib".to_vec())
    );
    assert_eq!(
        expand(&tokens, "/p/${PLATFORM}/$PLATFORM", "/o"),
        Some(b"/p/x86_64/x86_64".to_vec())
    );
}

#[test]
fn expand_keeps_unknown_dollars() {
    let tokens = PathTokens::new();
    assert_eq!(expand(&tokens, "/usr/lib", "/o"), Some(b"/usr/lib".to_vec()));
    assert_eq!(expand(&tokens, "$ORIGINx", "/o"), Some(b"$ORIGINx".to_vec()));
    assert_eq!(expand(&tokens, "$FOO/$", "/o"), Some(b"$FOO/$".to_vec()));
    assert_eq!(expand(&tokens, "$$ORIGIN", "/o"), Some(b"$/o".to_vec()));
}

#[test]
fn expand_fails_on_unset_tokens() {
    let tokens = PathTokens::new();
    assert_eq!(expand(&tokens, "/x/$LIB", "/o"), None);
    assert_eq!(expand(&tokens, "${PLATFORM}", "/o"), None);
    let mut tokens = PathTokens::new();
    tokens.set_lib("lib");
    assert_eq!(expand(&tokens, "$LIB/$PLATFORM", "/o"), None);
}

#[test]
fn tokens_copy_keeps_values() {
    let mut tokens = PathTokens::new();
    tokens.set_platform("aarch64");
    let copy = tokens.duplicate();
    assert_eq!(expand(&copy, "$PLATFORM", "/o"), Some(b"aarch64".to_vec()));
}

fn normalize(s: &str) -> Vec<u8> {
    normalize_dir(Path::new(s)).into_bytes()
}

#[test]
fn normalize_dir_keeps_roots() {
    assert_eq!(normalize("/usr/lib//"), b"/usr/lib".to_vec());
    assert_eq!(normalize("/"), b"/".to_vec());
    assert_eq!(normalize("//"), b"//".to_vec());
    assert_eq!(normalize("///"), b"//".to_vec());
    assert_eq!(normalize("C:\\"), b"C:\\".to_vec());
    assert_eq!(normalize("C:\\dir\\\\"), b"C:\\dir".to_vec());
    assert_eq!(normalize("lib/"), b"lib".to_vec());
    assert_eq!(normalize("lib"), b"lib".to_vec());
    assert_eq!(normalize(""), b"".to_vec());
}

#[test]
fn normalize_dir_is_idempotent() {
    for s in ["/a//", "//", "C:\\x\\", "a\\b/", "."] {
        let once = normalize(s);
        let twice = normalize_dir(Path::new(std::str::from_utf8(&once).unwrap())).into_bytes();
        assert_eq!(once, twice);
    }
}

fn dirs(value: &str, origin: &str, tokens: &PathTokens) -> Vec<Vec<u8>> {
    expand_dirs(value, Path::new(origin), tokens)
        .into_iter()
        .map(|p| p.into_bytes())
        .collect()
}

#[test]
fn expand_dirs_splits_and_dedups() {
    let tokens = PathTokens::new();
    assert!(dirs("", "/o", &tokens).is_empty());
    assert_eq!(dirs(":", "/o", &tokens), vec![b".".to_vec()]);
    assert_eq!(
        dirs("a:a/:b", "/o", &tokens),
        vec![b"a".to_vec(), b"b".to_vec()]
    );
    assert_eq!(
        dirs("$LIB/x:/y/", "/o", &tokens),
        vec![b"/y".to_vec()]
    );
    assert_eq!(
        dirs("$ORIGIN:$ORIGIN/:/o", "/o", &tokens),
        vec![b"/o".to_vec()]
    );
}
