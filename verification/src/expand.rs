//! Dynamic string tokens (`$ORIGIN`, `$LIB`, `$PLATFORM`) in `DT_RUNPATH`
//! and `DT_RPATH` entries, and the normalisation of search directories.
use crate::path::{is_sep, Path, PathBuf, PathStr, PathString};
use vstd::prelude::*;
use vstd::string::StringSliceAdditionalSpecFns;

verus! {

broadcast use {vstd::seq_lib::group_seq_properties, vstd::slice::group_slice_axioms};

/// The byte `$` that starts a token.
pub open spec fn dollar() -> u8 {
    0x24
}

/// The bytes of `ORIGIN`.
pub open spec fn origin_name() -> Seq<u8> {
    seq![0x4fu8, 0x52, 0x49, 0x47, 0x49, 0x4e]
}

/// The bytes of `LIB`.
pub open spec fn lib_name() -> Seq<u8> {
    seq![0x4cu8, 0x49, 0x42]
}

/// The bytes of `PLATFORM`.
pub open spec fn platform_name() -> Seq<u8> {
    seq![0x50u8, 0x4c, 0x41, 0x54, 0x46, 0x4f, 0x52, 0x4d]
}

/// A byte that may continue a token name: an ASCII letter, digit or `_`.
pub open spec fn is_word_byte(b: u8) -> bool {
    (0x30 <= b <= 0x39) || (0x41 <= b <= 0x5a) || (0x61 <= b <= 0x7a) || b == 0x5f
}

/// How many bytes after a `$` the token `name` takes in `v`: `{name}` takes
/// the name and its braces; a bare `name` counts only when no word byte
/// follows it; otherwise `v` does not start with the token.
pub open spec fn token_len_of(v: Seq<u8>, name: Seq<u8>) -> Option<nat> {
    let n = name.len();
    if v.len() >= n + 2 && v[0] == 0x7b && v.subrange(1, n + 1 as int) == name && v[n + 1 as int] == 0x7d {
        Some(n + 2)
    } else if v.len() >= n && v.subrange(0, n as int) == name && !(v.len() > n && is_word_byte(
        v[n as int],
    )) {
        Some(n)
    } else {
        None
    }
}

/// `p` put in front of an expansion result, when there is one.
pub open spec fn prefixed(p: Seq<u8>, r: Option<Seq<u8>>) -> Option<Seq<u8>> {
    match r {
        Some(x) => Some(p + x),
        None => None,
    }
}

/// The token that starts `t` (the bytes after a `$`), looked for in the order
/// `ORIGIN`, `LIB`, `PLATFORM`: how many bytes it takes and its value, which
/// is `None` for a `$LIB` or `$PLATFORM` whose value is not set.
pub open spec fn token_at(
    t: Seq<u8>,
    origin: Seq<u8>,
    lib: Option<Seq<u8>>,
    platform: Option<Seq<u8>>,
) -> Option<(nat, Option<Seq<u8>>)> {
    if let Some(n) = token_len_of(t, origin_name()) {
        Some((n, Some(origin)))
    } else if let Some(n) = token_len_of(t, lib_name()) {
        Some((n, lib))
    } else if let Some(n) = token_len_of(t, platform_name()) {
        Some((n, platform))
    } else {
        None
    }
}

/// A token never takes more bytes than there are.
pub proof fn lemma_token_at_len(
    t: Seq<u8>,
    origin: Seq<u8>,
    lib: Option<Seq<u8>>,
    platform: Option<Seq<u8>>,
)
    ensures
        token_at(t, origin, lib, platform) matches Some((n, _)) ==> n <= t.len(),
{
}

/// The expansion of the dynamic string tokens of `s`, left to right: each
/// `$ORIGIN` becomes `origin`, `$LIB` becomes `lib` and `$PLATFORM` becomes
/// `platform` (in the bare or the braced form); a `$` that starts no token
/// stays. `None` when `s` uses `$LIB` or `$PLATFORM` and that value is not set.
pub open spec fn expansion(
    s: Seq<u8>,
    origin: Seq<u8>,
    lib: Option<Seq<u8>>,
    platform: Option<Seq<u8>>,
) -> Option<Seq<u8>>
    decreases s.len(),
{
    if s.len() == 0 {
        Some(Seq::<u8>::empty())
    } else if s[0] != dollar() {
        prefixed(seq![s[0]], expansion(s.drop_first(), origin, lib, platform))
    } else {
        let t = s.drop_first();
        match token_at(t, origin, lib, platform) {
            None => prefixed(seq![dollar()], expansion(t, origin, lib, platform)),
            Some((n, value)) => {
                proof {
                    lemma_token_at_len(t, origin, lib, platform);
                }
                match value {
                    Some(v) => prefixed(v, expansion(t.skip(n as int), origin, lib, platform)),
                    None => None,
                }
            },
        }
    }
}

/// Whether `s` holds the byte `b`.
pub open spec fn has_byte(s: Seq<u8>, b: u8) -> bool {
    exists|i: int| 0 <= i < s.len() && #[trigger] s[i] == b
}

/// How many bytes at the start of `b` make its root: two separators (UNC),
/// one separator, or a drive letter, `:` and a separator; none otherwise.
pub open spec fn root_len(b: Seq<u8>) -> nat {
    if b.len() >= 2 && is_sep(b[0]) && is_sep(b[1]) {
        2
    } else if b.len() >= 1 && is_sep(b[0]) {
        1
    } else if b.len() >= 3 && b[1] == 0x3a && is_sep(b[2]) {
        3
    } else {
        0
    }
}

/// `b` without the trailing separators that stand after its first `min` bytes.
pub open spec fn trim_seps(b: Seq<u8>, min: nat) -> Seq<u8>
    decreases b.len(),
{
    if b.len() > min && is_sep(b.last()) {
        trim_seps(b.drop_last(), min)
    } else {
        b
    }
}

/// A search directory in canonical form: trailing separators removed, the
/// root kept.
pub open spec fn normalized(b: Seq<u8>) -> Seq<u8> {
    trim_seps(b, root_len(b))
}

/// Expanding a path that holds no `$` leaves it as it is.
pub proof fn lemma_expansion_without_tokens(
    s: Seq<u8>,
    origin: Seq<u8>,
    lib: Option<Seq<u8>>,
    platform: Option<Seq<u8>>,
)
    requires
        !has_byte(s, dollar()),
    ensures
        expansion(s, origin, lib, platform) == Some(s),
    decreases s.len(),
{
    if s.len() > 0 {
        assert(!has_byte(s.drop_first(), dollar())) by {
            if has_byte(s.drop_first(), dollar()) {
                let k = choose|k: int|
                    0 <= k < s.drop_first().len() && #[trigger] s.drop_first()[k] == dollar();
                assert(s[k + 1] == dollar());
            }
        }
        lemma_expansion_without_tokens(s.drop_first(), origin, lib, platform);
        assert(seq![s[0]] + s.drop_first() =~= s);
    }
}

/// A run of bytes without `$` passes through expansion unchanged.
pub proof fn lemma_expansion_prefix(
    s: Seq<u8>,
    k: int,
    origin: Seq<u8>,
    lib: Option<Seq<u8>>,
    platform: Option<Seq<u8>>,
)
    requires
        0 <= k <= s.len(),
        forall|j: int| 0 <= j < k ==> s[j] != dollar(),
    ensures
        expansion(s, origin, lib, platform) == prefixed(
            s.subrange(0, k),
            expansion(s.skip(k), origin, lib, platform),
        ),
    decreases k,
{
    if k == 0 {
        assert(s.skip(0) =~= s);
        match expansion(s, origin, lib, platform) {
            Some(x) => {
                assert(s.subrange(0, 0) + x =~= x);
            },
            None => {},
        }
    } else {
        let t = s.drop_first();
        lemma_expansion_prefix(t, k - 1, origin, lib, platform);
        assert(t.skip(k - 1) =~= s.skip(k));
        match expansion(s.skip(k), origin, lib, platform) {
            Some(x) => {
                assert(seq![s[0]] + (t.subrange(0, k - 1) + x) =~= s.subrange(0, k) + x);
            },
            None => {},
        }
    }
}

/// Putting two prefixes in front one after the other puts their concatenation.
pub proof fn lemma_prefixed_twice(a: Seq<u8>, b: Seq<u8>, r: Option<Seq<u8>>)
    ensures
        prefixed(a, prefixed(b, r)) == prefixed(a + b, r),
{
    match r {
        Some(x) => {
            assert(a + (b + x) =~= (a + b) + x);
        },
        None => {},
    }
}

/// Whether the bytes of `v` from `start` on begin with `name`.
fn starts_with_at(v: &[u8], start: usize, name: &[u8]) -> (r: bool)
    requires
        start <= v@.len(),
    ensures
        r == (start + name@.len() <= v@.len() && v@.subrange(
            start as int,
            start + name@.len(),
        ) == name@),
{
    if name.len() > v.len() - start {
        return false;
    }
    let mut i: usize = 0;
    while i < name.len()
        invariant
            i <= name@.len(),
            start + name@.len() <= v@.len(),
            start + name.len() <= v.len(),
            forall|j: int| 0 <= j < i ==> v@[start + j] == name@[j],
        decreases name@.len() - i,
    {
        if v[start + i] != name[i] {
            assert(v@.subrange(start as int, start + name@.len())[i as int] != name@[i as int]);
            return false;
        }
        i = i + 1;
    }
    assert(v@.subrange(start as int, start + name@.len()) =~= name@);
    true
}

/// Whether `b` is an ASCII letter, digit or `_`.
fn is_word(b: u8) -> (r: bool)
    ensures
        r == is_word_byte(b),
{
    (0x30 <= b && b <= 0x39) || (0x41 <= b && b <= 0x5a) || (0x61 <= b && b <= 0x7a) || b == 0x5f
}

/// How many bytes after a `$` the token `name` takes at the start of `value`.
pub fn token_len(value: &[u8], name: &str) -> (r: Option<usize>)
    ensures
        match r {
            Some(n) => token_len_of(value@, name.spec_bytes()) == Some(n as nat),
            None => token_len_of(value@, name.spec_bytes()) is None,
        },
{
    let name = name.as_bytes();
    let n = name.len();
    if value.len() >= 1 && value[0] == 0x7b && starts_with_at(value, 1, name) && value.len() > n + 1
        && value[n + 1] == 0x7d {
        return Some(n + 2);
    }
    if !starts_with_at(value, 0, name) {
        return None;
    }
    if value.len() > n && is_word(value[n]) {
        None
    } else {
        Some(n)
    }
}

/// One step of expansion from `start`: the bytes up to the `$` at `pos`
/// pass through, then the token after that `$` is replaced (or the `$`
/// kept), and expansion goes on after it.
pub proof fn lemma_expansion_step(
    s: Seq<u8>,
    start: int,
    pos: int,
    origin: Seq<u8>,
    lib: Option<Seq<u8>>,
    platform: Option<Seq<u8>>,
)
    requires
        0 <= start <= pos < s.len(),
        s[pos] == dollar(),
        forall|j: int| start <= j < pos ==> s[j] != dollar(),
    ensures
        ({
            let before = s.subrange(start, pos);
            let here = expansion(s.skip(start), origin, lib, platform);
            match token_at(s.skip(pos + 1), origin, lib, platform) {
                None => here == prefixed(
                    before + seq![dollar()],
                    expansion(s.skip(pos + 1), origin, lib, platform),
                ),
                Some((n, Some(v))) => here == prefixed(
                    before + v,
                    expansion(s.skip(pos + 1 + n), origin, lib, platform),
                ),
                Some((_, None)) => here is None,
            }
        }),
{
    let rest = s.skip(start);
    let k = pos - start;
    assert forall|j: int| 0 <= j < k implies rest[j] != dollar() by {
        assert(rest[j] == s[start + j]);
    }
    lemma_expansion_prefix(rest, k, origin, lib, platform);
    assert(rest.skip(k) =~= s.skip(pos));
    assert(rest.subrange(0, k) =~= s.subrange(start, pos));
    let at = s.skip(pos);
    let t = at.drop_first();
    assert(t =~= s.skip(pos + 1));
    lemma_token_at_len(t, origin, lib, platform);
    match token_at(t, origin, lib, platform) {
        None => {
            lemma_prefixed_twice(
                s.subrange(start, pos),
                seq![dollar()],
                expansion(t, origin, lib, platform),
            );
        },
        Some((n, Some(v))) => {
            assert(t.skip(n as int) =~= s.skip(pos + 1 + n));
            lemma_prefixed_twice(
                s.subrange(start, pos),
                v,
                expansion(t.skip(n as int), origin, lib, platform),
            );
        },
        Some((_, None)) => {},
    }
}

/// Trimming separators from `b` keeps a prefix of at least `min` bytes that
/// no longer ends in a separator past those `min` bytes.
pub proof fn lemma_trim_seps(b: Seq<u8>, min: nat)
    requires
        min <= b.len(),
    ensures
        min <= trim_seps(b, min).len() <= b.len(),
        trim_seps(b, min) == b.subrange(0, trim_seps(b, min).len() as int),
        trim_seps(b, min).len() > min ==> !is_sep(trim_seps(b, min).last()),
    decreases b.len(),
{
    if b.len() > min && is_sep(b.last()) {
        lemma_trim_seps(b.drop_last(), min);
        let t = trim_seps(b.drop_last(), min);
        assert(t =~= b.subrange(0, t.len() as int));
    } else {
        assert(b =~= b.subrange(0, b.len() as int));
    }
}

/// A prefix that keeps the root of `b` has the same root.
proof fn lemma_root_len_prefix(b: Seq<u8>, k: int)
    requires
        root_len(b) <= k <= b.len(),
    ensures
        root_len(b.subrange(0, k)) == root_len(b),
{
    let p = b.subrange(0, k);
    if k >= 1 {
        assert(p[0] == b[0]);
    }
    if k >= 2 {
        assert(p[1] == b[1]);
    }
    if k >= 3 {
        assert(p[2] == b[2]);
    }
}

/// What normalisation gives: a prefix of the path that keeps its root and
/// ends in no separator past the root.
pub proof fn lemma_normalized(b: Seq<u8>)
    ensures
        normalized(b).is_prefix_of(b),
        root_len(b) <= normalized(b).len(),
        root_len(normalized(b)) == root_len(b),
        normalized(b).len() > root_len(b) ==> !is_sep(normalized(b).last()),
{
    lemma_trim_seps(b, root_len(b));
    lemma_root_len_prefix(b, normalized(b).len() as int);
}

/// Normalising a normalised directory changes nothing.
pub proof fn lemma_normalized_idempotent(b: Seq<u8>)
    ensures
        normalized(normalized(b)) == normalized(b),
{
    lemma_normalized(b);
}

/// `${ORIGIN}` expands to the origin, as does `$ORIGIN` when no letter,
/// digit or `_` follows it.
pub proof fn lemma_origin_token(
    rest: Seq<u8>,
    origin: Seq<u8>,
    lib: Option<Seq<u8>>,
    platform: Option<Seq<u8>>,
)
    ensures
        expansion(
            seq![dollar(), 0x7bu8] + origin_name() + seq![0x7du8] + rest,
            origin,
            lib,
            platform,
        ) == prefixed(origin, expansion(rest, origin, lib, platform)),
        rest.len() == 0 || !is_word_byte(rest[0]) ==> expansion(
            seq![dollar()] + origin_name() + rest,
            origin,
            lib,
            platform,
        ) == prefixed(origin, expansion(rest, origin, lib, platform)),
{
    let braced = seq![dollar(), 0x7bu8] + origin_name() + seq![0x7du8] + rest;
    let bt = braced.drop_first();
    assert(bt.subrange(1, 7) =~= origin_name());
    assert(bt.skip(8) =~= rest);
    assert(token_len_of(bt, origin_name()) == Some(8nat));
    let bare = seq![dollar()] + origin_name() + rest;
    let t = bare.drop_first();
    assert(t.subrange(0, 6) =~= origin_name());
    assert(t.skip(6) =~= rest);
    assert(t[0] != 0x7b);
    if rest.len() > 0 {
        assert(t[6] == rest[0]);
    }
}

/// The value of a token that is set, or `None` for one that is not.
pub open spec fn token_value(v: Option<Seq<u8>>, rest: Option<Seq<u8>>) -> Option<Seq<u8>> {
    match v {
        Some(x) => prefixed(x, rest),
        None => None,
    }
}

/// `${LIB}` expands to the `$LIB` value, as does `$LIB` when no letter,
/// digit or `_` follows it; either fails when `$LIB` is not set.
pub proof fn lemma_lib_token(
    rest: Seq<u8>,
    origin: Seq<u8>,
    lib: Option<Seq<u8>>,
    platform: Option<Seq<u8>>,
)
    ensures
        expansion(
            seq![dollar(), 0x7bu8] + lib_name() + seq![0x7du8] + rest,
            origin,
            lib,
            platform,
        ) == token_value(lib, expansion(rest, origin, lib, platform)),
        rest.len() == 0 || !is_word_byte(rest[0]) ==> expansion(
            seq![dollar()] + lib_name() + rest,
            origin,
            lib,
            platform,
        ) == token_value(lib, expansion(rest, origin, lib, platform)),
{
    let braced = seq![dollar(), 0x7bu8] + lib_name() + seq![0x7du8] + rest;
    let bt = braced.drop_first();
    assert(bt.subrange(1, 4) =~= lib_name());
    assert(bt.skip(5) =~= rest);
    assert(bt[1] != origin_name()[0]);
    if bt.len() >= 8 {
        assert(bt.subrange(1, 7)[0] != origin_name()[0]);
    }
    if bt.len() >= 6 {
        assert(bt.subrange(0, 6)[0] != origin_name()[0]);
    }
    assert(token_len_of(bt, origin_name()) is None);
    assert(token_len_of(bt, lib_name()) == Some(5nat));
    let bare = seq![dollar()] + lib_name() + rest;
    let t = bare.drop_first();
    assert(t.subrange(0, 3) =~= lib_name());
    assert(t.skip(3) =~= rest);
    assert(t[0] != 0x7b);
    if t.len() >= 6 {
        assert(t.subrange(0, 6)[0] != origin_name()[0]);
    }
    assert(token_len_of(t, origin_name()) is None);
    if rest.len() > 0 {
        assert(t[3] == rest[0]);
    }
}

/// `${PLATFORM}` expands to the `$PLATFORM` value, as does `$PLATFORM` when
/// no letter, digit or `_` follows it; either fails when `$PLATFORM` is not
/// set.
pub proof fn lemma_platform_token(
    rest: Seq<u8>,
    origin: Seq<u8>,
    lib: Option<Seq<u8>>,
    platform: Option<Seq<u8>>,
)
    ensures
        expansion(
            seq![dollar(), 0x7bu8] + platform_name() + seq![0x7du8] + rest,
            origin,
            lib,
            platform,
        ) == token_value(platform, expansion(rest, origin, lib, platform)),
        rest.len() == 0 || !is_word_byte(rest[0]) ==> expansion(
            seq![dollar()] + platform_name() + rest,
            origin,
            lib,
            platform,
        ) == token_value(platform, expansion(rest, origin, lib, platform)),
{
    let braced = seq![dollar(), 0x7bu8] + platform_name() + seq![0x7du8] + rest;
    let bt = braced.drop_first();
    assert(bt.subrange(1, 9) =~= platform_name());
    assert(bt.skip(10) =~= rest);
    assert(bt.subrange(1, 7)[0] != origin_name()[0]);
    assert(bt.subrange(1, 4)[0] != lib_name()[0]);
    assert(bt.subrange(0, 6)[0] != origin_name()[0]);
    assert(bt.subrange(0, 3)[0] != lib_name()[0]);
    assert(token_len_of(bt, origin_name()) is None);
    assert(token_len_of(bt, lib_name()) is None);
    assert(token_len_of(bt, platform_name()) == Some(10nat));
    let bare = seq![dollar()] + platform_name() + rest;
    let t = bare.drop_first();
    assert(t.subrange(0, 8) =~= platform_name());
    assert(t.skip(8) =~= rest);
    assert(t[0] != 0x7b);
    assert(t.subrange(0, 6)[0] != origin_name()[0]);
    assert(t.subrange(0, 3)[0] != lib_name()[0]);
    assert(token_len_of(t, origin_name()) is None);
    assert(token_len_of(t, lib_name()) is None);
    if rest.len() > 0 {
        assert(t[8] == rest[0]);
    }
}

/// Position of the first `b` in `bytes` from `start` on.
fn find_byte(bytes: &[u8], start: usize, b: u8) -> (r: Option<usize>)
    requires
        start <= bytes@.len(),
    ensures
        r matches Some(i) ==> start <= i < bytes@.len() && bytes@[i as int] == b && forall|j: int|
            start <= j < i ==> bytes@[j] != b,
        r is None ==> forall|j: int| start <= j < bytes@.len() ==> bytes@[j] != b,
{
    let mut i = start;
    while i < bytes.len()
        invariant
            start <= i <= bytes@.len(),
            forall|j: int| start <= j < i ==> bytes@[j] != b,
        decreases bytes@.len() - i,
    {
        if bytes[i] == b {
            return Some(i);
        }
        i = i + 1;
    }
    None
}

/// The view of an optional path.
pub open spec fn opt_view(p: Option<Path<'_>>) -> Option<Seq<u8>> {
    match p {
        Some(p) => Some(p@),
        None => None,
    }
}

/// The values substituted for `$LIB` and `$PLATFORM`.
pub struct PathTokens {
    lib: Option<PathBuf>,
    platform: Option<PathBuf>,
}

/// A copy of an optional owned path.
fn copy_opt(p: &Option<PathBuf>) -> (r: Option<PathBuf>)
    ensures
        match (r, *p) {
            (Some(a), Some(b)) => a@ == b@,
            (None, None) => true,
            _ => false,
        },
{
    match p {
        Some(p) => Some(p.as_path().to_path_buf()),
        None => None,
    }
}

impl PathTokens {
    /// The value of `$LIB`, if it is set.
    pub closed spec fn lib(&self) -> Option<Seq<u8>> {
        match self.lib {
            Some(p) => Some(p@),
            None => None,
        }
    }

    /// The value of `$PLATFORM`, if it is set.
    pub closed spec fn platform(&self) -> Option<Seq<u8>> {
        match self.platform {
            Some(p) => Some(p@),
            None => None,
        }
    }

    /// Tokens with neither `$LIB` nor `$PLATFORM` set.
    pub fn new() -> (r: PathTokens)
        ensures
            r.lib() is None,
            r.platform() is None,
    {
        PathTokens { lib: None, platform: None }
    }

    /// A copy of these tokens.
    pub fn duplicate(&self) -> (r: PathTokens)
        ensures
            r.lib() == self.lib(),
            r.platform() == self.platform(),
    {
        PathTokens { lib: copy_opt(&self.lib), platform: copy_opt(&self.platform) }
    }

    /// Sets the value of `$LIB`.
    pub fn set_lib(&mut self, lib: &str)
        ensures
            final(self).lib() == Some(lib.spec_bytes()),
            final(self).platform() == old(self).platform(),
    {
        self.lib = Some(Path::new(lib).to_path_buf());
    }

    /// Sets the value of `$PLATFORM`.
    pub fn set_platform(&mut self, platform: &str)
        ensures
            final(self).platform() == Some(platform.spec_bytes()),
            final(self).lib() == old(self).lib(),
    {
        self.platform = Some(Path::new(platform).to_path_buf());
    }

    /// The token at the start of `token` (the bytes after a `$`): how many
    /// bytes it takes, and its value where that is set.
    fn token_at<'a>(&'a self, token: &[u8], origin: Path<'a>) -> (r: Option<
        (usize, Option<Path<'a>>),
    >)
        ensures
            match r {
                Some((n, v)) => token_at(token@, origin@, self.lib(), self.platform()) == Some(
                    (n as nat, opt_view(v)),
                ),
                None => token_at(token@, origin@, self.lib(), self.platform()) is None,
            },
    {
        let origin_str = "ORIGIN";
        let lib_str = "LIB";
        let platform_str = "PLATFORM";
        proof {
            reveal_strlit("ORIGIN");
            reveal_strlit("LIB");
            reveal_strlit("PLATFORM");
            vstd::string::is_ascii_spec_bytes(origin_str);
            vstd::string::is_ascii_spec_bytes(lib_str);
            vstd::string::is_ascii_spec_bytes(platform_str);
            assert(origin_str.spec_bytes() =~= origin_name());
            assert(lib_str.spec_bytes() =~= lib_name());
            assert(platform_str.spec_bytes() =~= platform_name());
        }
        if let Some(n) = token_len(token, origin_str) {
            Some((n, Some(origin)))
        } else if let Some(n) = token_len(token, lib_str) {
            match &self.lib {
                Some(l) => Some((n, Some(l.as_path()))),
                None => Some((n, None)),
            }
        } else if let Some(n) = token_len(token, platform_str) {
            match &self.platform {
                Some(p) => Some((n, Some(p.as_path()))),
                None => Some((n, None)),
            }
        } else {
            None
        }
    }

    /// Appends to `expanded` the bytes of `input` from `start` up to the `$`
    /// at `pos` and what the token after it stands for; returns where the
    /// input goes on, or `None` when that token's value is not set.
    #[verifier::spinoff_prover]
    #[verifier::rlimit(40)]
    fn expand_token(
        &self,
        input: &[u8],
        start: usize,
        pos: usize,
        origin: Path<'_>,
        expanded: &mut PathString,
    ) -> (r: Option<usize>)
        requires
            start <= pos < input@.len(),
            input@[pos as int] == dollar(),
            forall|j: int| start <= j < pos ==> input@[j] != dollar(),
        ensures
            match r {
                Some(next) => {
                    &&& pos < next <= input@.len()
                    &&& prefixed(
                        old(expanded)@,
                        expansion(input@.skip(start as int), origin@, self.lib(), self.platform()),
                    ) == prefixed(
                        final(expanded)@,
                        expansion(input@.skip(next as int), origin@, self.lib(), self.platform()),
                    )
                },
                None => expansion(
                    input@.skip(start as int),
                    origin@,
                    self.lib(),
                    self.platform(),
                ) is None,
            },
    {
        let ghost lib = self.lib();
        let ghost platform = self.platform();
        let ghost prev = expanded@;
        let len = input.len();
        proof {
            lemma_expansion_step(input@, start as int, pos as int, origin@, lib, platform);
        }
        let before = vstd::slice::slice_subrange(input, start, pos);
        let token = vstd::slice::slice_subrange(input, pos + 1, len);
        assert(token@ =~= input@.skip(pos + 1));
        proof {
            lemma_token_at_len(token@, origin@, lib, platform);
        }
        match self.token_at(token, origin) {
            None => {
                let sign = "$";
                proof {
                    reveal_strlit("$");
                    vstd::string::is_ascii_spec_bytes(sign);
                    assert(sign.spec_bytes() =~= seq![dollar()]);
                }
                expanded.push(PathStr::new(before));
                expanded.push(PathStr::new(sign.as_bytes()));
                proof {
                    lemma_prefixed_twice(
                        prev,
                        before@ + seq![dollar()],
                        expansion(token@, origin@, lib, platform),
                    );
                    assert(prev + (before@ + seq![dollar()]) =~= expanded@);
                }
                Some(pos + 1)
            },
            Some((_, None)) => None,
            Some((n, Some(replacement))) => {
                expanded.push(PathStr::new(before));
                expanded.push(replacement.as_path_str());
                proof {
                    lemma_prefixed_twice(
                        prev,
                        before@ + replacement@,
                        expansion(input@.skip(pos + 1 + n), origin@, lib, platform),
                    );
                    assert(prev + (before@ + replacement@) =~= expanded@);
                }
                Some(pos + 1 + n)
            },
        }
    }

    /// Expands the dynamic string tokens of `value`, with `origin` for
    /// `$ORIGIN`; `None` when it uses `$LIB` or `$PLATFORM` and that value is
    /// not set.
    pub fn expand(&self, value: Path<'_>, origin: Path<'_>) -> (r: Option<PathBuf>)
        ensures
            match r {
                Some(p) => expansion(value@, origin@, self.lib(), self.platform()) == Some(p@),
                None => expansion(value@, origin@, self.lib(), self.platform()) is None,
            },
    {
        let input = value.as_bytes();
        let len = input.len();
        let ghost lib = self.lib();
        let ghost platform = self.platform();
        let ghost whole = expansion(input@, origin@, lib, platform);
        let mut expanded = PathString::new();
        expanded.reserve(len);
        let mut start: usize = 0;
        proof {
            assert(input@.skip(0) =~= input@);
            match whole {
                Some(x) => {
                    assert(Seq::<u8>::empty() + x =~= x);
                },
                None => {},
            }
        }
        loop
            invariant
                start <= len,
                len == input@.len(),
                input@ == value@,
                lib == self.lib(),
                platform == self.platform(),
                whole == expansion(input@, origin@, lib, platform),
                whole == prefixed(expanded@, expansion(input@.skip(start as int), origin@, lib, platform)),
            decreases len - start,
        {
            match find_byte(input, start, 0x24) {
                None => {
                    let ghost rest = input@.skip(start as int);
                    let ghost prev = expanded@;
                    proof {
                        assert(!has_byte(rest, dollar())) by {
                            if has_byte(rest, dollar()) {
                                let k = choose|k: int| 0 <= k < rest.len() && #[trigger] rest[k] == dollar();
                                assert(input@[start + k] == dollar());
                            }
                        }
                        lemma_expansion_without_tokens(rest, origin@, lib, platform);
                    }
                    let tail = vstd::slice::slice_subrange(input, start, len);
                    assert(tail@ =~= rest);
                    expanded.push(PathStr::new(tail));
                    return Some(PathBuf::from_path_string(expanded));
                },
                Some(pos) => {
                    match self.expand_token(input, start, pos, origin, &mut expanded) {
                        Some(next) => {
                            start = next;
                        },
                        None => {
                            return None;
                        },
                    }
                },
            }
        }
    }
}

} // verus!
