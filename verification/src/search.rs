//! Search directories of a module: `DT_RUNPATH` and `DT_RPATH` values are
//! split at `:`, their tokens expanded, each directory normalised, and
//! repeated directories dropped; a `SearchPathPool` shares equal directories
//! between modules.
use crate::dir::SharedDir;
use crate::expand::{
    expansion, lemma_normalized_idempotent, normalized, root_len, trim_seps, PathTokens,
};
use crate::path::{dot, file_name_of, is_sep, parent_of, Path, PathBuf, PathStr};
use vstd::prelude::*;
use vstd::string::StringSliceAdditionalSpecFns;

verus! {

broadcast use {vstd::seq_lib::group_seq_properties, vstd::slice::group_slice_axioms};

/// The byte `:` that separates the directories of a search path.
pub open spec fn colon() -> u8 {
    0x3a
}

/// The pieces of `s` between `:` bytes, as `str::split(':')` gives them:
/// always at least one, possibly empty.
pub open spec fn split_colons(s: Seq<u8>) -> Seq<Seq<u8>>
    decreases s.len(),
{
    if s.len() == 0 {
        seq![Seq::<u8>::empty()]
    } else {
        let parts = split_colons(s.drop_last());
        if s.last() == colon() {
            parts.push(Seq::<u8>::empty())
        } else {
            parts.update(parts.len() - 1, parts.last().push(s.last()))
        }
    }
}

/// The directory that one piece of a search path stands for: `.` for an
/// empty piece, otherwise its expansion; normalised. `None` when its
/// expansion fails.
pub open spec fn dir_of(
    piece: Seq<u8>,
    origin: Seq<u8>,
    lib: Option<Seq<u8>>,
    platform: Option<Seq<u8>>,
) -> Option<Seq<u8>> {
    if piece.len() == 0 {
        Some(seq![dot()])
    } else {
        match expansion(piece, origin, lib, platform) {
            Some(p) => Some(normalized(p)),
            None => None,
        }
    }
}

/// `dirs` with `d` added at the end, unless `d` is missing or already there.
pub open spec fn add_dir(dirs: Seq<Seq<u8>>, d: Option<Seq<u8>>) -> Seq<Seq<u8>> {
    match d {
        Some(d) => if dirs.contains(d) {
            dirs
        } else {
            dirs.push(d)
        },
        None => dirs,
    }
}

/// The directories of the pieces `parts`, in order of first appearance,
/// each once, leaving out the pieces whose expansion fails.
pub open spec fn collect_dirs(
    parts: Seq<Seq<u8>>,
    origin: Seq<u8>,
    lib: Option<Seq<u8>>,
    platform: Option<Seq<u8>>,
) -> Seq<Seq<u8>>
    decreases parts.len(),
{
    if parts.len() == 0 {
        Seq::<Seq<u8>>::empty()
    } else {
        add_dir(
            collect_dirs(parts.drop_last(), origin, lib, platform),
            dir_of(parts.last(), origin, lib, platform),
        )
    }
}

/// The search directories of a `DT_RUNPATH` or `DT_RPATH` value: none for
/// an empty value, otherwise those of its `:`-separated pieces.
pub open spec fn search_dirs(
    value: Seq<u8>,
    origin: Seq<u8>,
    lib: Option<Seq<u8>>,
    platform: Option<Seq<u8>>,
) -> Seq<Seq<u8>> {
    if value.len() == 0 {
        Seq::<Seq<u8>>::empty()
    } else {
        collect_dirs(split_colons(value), origin, lib, platform)
    }
}

/// The byte sequences of owned paths.
pub open spec fn views(v: Seq<PathBuf>) -> Seq<Seq<u8>> {
    v.map_values(|p: PathBuf| p@)
}

/// Whether `a` and `b` hold the same bytes.
fn bytes_eq(a: &[u8], b: &[u8]) -> (r: bool)
    ensures
        r == (a@ == b@),
{
    if a.len() != b.len() {
        return false;
    }
    let mut i: usize = 0;
    while i < a.len()
        invariant
            i <= a@.len(),
            a@.len() == b@.len(),
            forall|j: int| 0 <= j < i ==> a@[j] == b@[j],
        decreases a@.len() - i,
    {
        if a[i] != b[i] {
            return false;
        }
        i = i + 1;
    }
    assert(a@ =~= b@);
    true
}

/// Whether `dirs` already holds a path with the bytes of `p`.
fn contains_path(dirs: &Vec<PathBuf>, p: Path<'_>) -> (r: bool)
    ensures
        r == views(dirs@).contains(p@),
{
    let mut i: usize = 0;
    while i < dirs.len()
        invariant
            i <= dirs@.len(),
            forall|j: int| 0 <= j < i ==> dirs@[j]@ != p@,
        decreases dirs@.len() - i,
    {
        if bytes_eq(dirs[i].as_bytes(), p.as_bytes()) {
            assert(views(dirs@)[i as int] == p@);
            return true;
        }
        i = i + 1;
    }
    assert forall|j: int| 0 <= j < views(dirs@).len() implies views(dirs@)[j] != p@ by {
        assert(views(dirs@)[j] == dirs@[j]@);
    }
    false
}

/// Whether `b` is `/` or `\`.
fn is_sep_byte(b: u8) -> (r: bool)
    ensures
        r == is_sep(b),
{
    b == 0x2f || b == 0x5c
}

/// Removes trailing directory separators from `path`, keeping its root
/// (`/`, `//`, or a drive such as `C:\`).
pub fn normalize_dir(path: Path<'_>) -> (r: PathBuf)
    ensures
        r@ == normalized(path@),
{
    let bytes = path.as_bytes();
    let n = bytes.len();
    let min_len: usize = if n >= 2 && is_sep_byte(bytes[0]) && is_sep_byte(bytes[1]) {
        2
    } else if n >= 1 && is_sep_byte(bytes[0]) {
        1
    } else if n >= 3 && bytes[1] == 0x3a && is_sep_byte(bytes[2]) {
        3
    } else {
        0
    };
    assert(min_len == root_len(bytes@));
    let mut len = n;
    assert(bytes@.subrange(0, n as int) =~= bytes@);
    while len > min_len && is_sep_byte(bytes[len - 1])
        invariant
            len <= n,
            n == bytes@.len(),
            min_len == root_len(bytes@),
            trim_seps(bytes@, min_len as nat) == trim_seps(
                bytes@.subrange(0, len as int),
                min_len as nat,
            ),
        decreases len,
    {
        assert(bytes@.subrange(0, len as int).drop_last() =~= bytes@.subrange(0, len - 1));
        len = len - 1;
    }
    if len == n {
        path.to_path_buf()
    } else {
        let kept = vstd::slice::slice_subrange(bytes, 0, len);
        Path::from_path_str(PathStr::new(kept)).to_path_buf()
    }
}

/// Adds to `dirs` the directory of the piece `value[start..end]` of a search
/// path, unless its expansion fails or `dirs` already holds it.
fn add_piece(
    value: &[u8],
    start: usize,
    end: usize,
    origin: Path<'_>,
    tokens: &PathTokens,
    dirs: &mut Vec<PathBuf>,
)
    requires
        start <= end <= value@.len(),
    ensures
        views(final(dirs)@) == add_dir(
            views(old(dirs)@),
            dir_of(value@.subrange(start as int, end as int), origin@, tokens.lib(), tokens.platform()),
        ),
{
    let piece = vstd::slice::slice_subrange(value, start, end);
    let path = if piece.len() == 0 {
        let current = ".";
        proof {
            reveal_strlit(".");
            vstd::string::is_ascii_spec_bytes(current);
        }
        let p = Path::new(current).to_path_buf();
        assert(p@ =~= seq![dot()]);
        p
    } else {
        match tokens.expand(Path::from_path_str(PathStr::new(piece)), origin) {
            Some(p) => p,
            None => {
                return ;
            },
        }
    };
    let dir = normalize_dir(path.as_path());
    proof {
        if piece@.len() == 0 {
            assert(normalized(seq![dot()]) == seq![dot()]);
        }
    }
    if !contains_path(dirs, dir.as_path()) {
        dirs.push(dir);
        assert(views(dirs@) =~= views(old(dirs)@).push(dir@));
    }
}

/// The first piece of `s[..i+1]` split at `:` extends the last piece of
/// `s[..i]` by `s[i]`, or starts a new piece at a `:`.
proof fn lemma_split_step(s: Seq<u8>, i: int)
    requires
        0 <= i < s.len(),
    ensures
        s.subrange(0, i + 1).drop_last() == s.subrange(0, i),
        s.subrange(0, i + 1).last() == s[i],
{
    assert(s.subrange(0, i + 1).drop_last() =~= s.subrange(0, i));
}

/// The directories named by a `DT_RUNPATH` or `DT_RPATH` value, with
/// `origin` for `$ORIGIN`: split at `:`, expanded, normalised, each once in
/// order of first appearance; pieces whose expansion fails are left out.
pub fn expand_dirs(value: &str, origin: Path<'_>, tokens: &PathTokens) -> (r: Vec<PathBuf>)
    ensures
        views(r@) == search_dirs(value.spec_bytes(), origin@, tokens.lib(), tokens.platform()),
{
    let bytes = value.as_bytes();
    let len = bytes.len();
    let mut dirs: Vec<PathBuf> = Vec::new();
    if len == 0 {
        assert(views(dirs@) =~= Seq::<Seq<u8>>::empty());
        return dirs;
    }
    let ghost lib = tokens.lib();
    let ghost platform = tokens.platform();
    let ghost mut done: Seq<Seq<u8>> = Seq::empty();
    let mut seg_start: usize = 0;
    let mut i: usize = 0;
    assert(bytes@.subrange(0, 0) =~= Seq::<u8>::empty());
    assert(views(dirs@) =~= Seq::<Seq<u8>>::empty());
    assert(done.push(bytes@.subrange(0, 0)) =~= seq![Seq::<u8>::empty()]);
    while i < len
        invariant
            seg_start <= i <= len,
            len == bytes@.len(),
            lib == tokens.lib(),
            platform == tokens.platform(),
            split_colons(bytes@.subrange(0, i as int)) == done.push(
                bytes@.subrange(seg_start as int, i as int),
            ),
            views(dirs@) == collect_dirs(done, origin@, lib, platform),
        decreases len - i,
    {
        proof {
            lemma_split_step(bytes@, i as int);
        }
        let ghost cur = bytes@.subrange(seg_start as int, i as int);
        let ghost next = bytes@.subrange(0, i + 1);
        assert(split_colons(next) == if next.last() == colon() {
            split_colons(next.drop_last()).push(Seq::<u8>::empty())
        } else {
            let parts = split_colons(next.drop_last());
            parts.update(parts.len() - 1, parts.last().push(next.last()))
        });
        if bytes[i] == 0x3a {
            add_piece(bytes, seg_start, i, origin, tokens, &mut dirs);
            proof {
                assert(done.push(cur).drop_last() =~= done);
                done = done.push(cur);
                assert(bytes@.subrange(i + 1, i + 1) =~= Seq::<u8>::empty());
                assert(done.push(bytes@.subrange(i + 1, i + 1)) =~= split_colons(
                    bytes@.subrange(0, i + 1),
                ));
            }
            seg_start = i + 1;
        } else {
            proof {
                let parts = done.push(cur);
                assert(cur.push(bytes@[i as int]) =~= bytes@.subrange(seg_start as int, i + 1));
                assert(parts.update(parts.len() - 1, parts.last().push(bytes@[i as int]))
                    =~= done.push(bytes@.subrange(seg_start as int, i + 1)));
            }
        }
        i = i + 1;
    }
    let ghost last = bytes@.subrange(seg_start as int, len as int);
    add_piece(bytes, seg_start, len, origin, tokens, &mut dirs);
    proof {
        assert(bytes@.subrange(0, len as int) =~= bytes@);
        assert(done.push(last).drop_last() =~= done);
    }
    dirs
}

/// The paths of search directories.
pub open spec fn dir_views(v: Seq<SharedDir>) -> Seq<Seq<u8>> {
    v.map_values(|d: SharedDir| d@)
}

/// No path occurs twice in `paths`.
pub open spec fn no_repeats(paths: Seq<Seq<u8>>) -> bool {
    forall|i: int, j: int| 0 <= i < j < paths.len() ==> paths[i] != paths[j]
}

/// The paths of a pool after the directories `paths` were taken from it in
/// turn: each path not held yet is added at the end.
pub open spec fn pooled(pool: Seq<Seq<u8>>, paths: Seq<Seq<u8>>) -> Seq<Seq<u8>>
    decreases paths.len(),
{
    if paths.len() == 0 {
        pool
    } else {
        add_dir(pooled(pool, paths.drop_last()), Some(paths.last()))
    }
}

/// The paths of a pool after the directories of an optional search path
/// were taken from it.
pub open spec fn opt_pooled(pool: Seq<Seq<u8>>, paths: Option<Seq<Seq<u8>>>) -> Seq<Seq<u8>> {
    match paths {
        Some(p) => pooled(pool, p),
        None => pool,
    }
}

/// The paths of optional search directories.
pub open spec fn opt_dir_views(v: Option<Seq<SharedDir>>) -> Option<Seq<Seq<u8>>> {
    match v {
        Some(d) => Some(dir_views(d)),
        None => None,
    }
}

/// Every directory of `dirs`, when there are any, is one of `pool`.
pub open spec fn all_in(dirs: Option<Seq<SharedDir>>, pool: Seq<SharedDir>) -> bool {
    match dirs {
        Some(d) => forall|i: int| 0 <= i < d.len() ==> pool.contains(#[trigger] d[i]),
        None => true,
    }
}

/// The search directories of an optional `DT_RUNPATH` or `DT_RPATH` value.
pub open spec fn opt_search_dirs(
    value: Option<&str>,
    origin: Seq<u8>,
    lib: Option<Seq<u8>>,
    platform: Option<Seq<u8>>,
) -> Option<Seq<Seq<u8>>> {
    match value {
        Some(v) => Some(search_dirs(v.spec_bytes(), origin, lib, platform)),
        None => None,
    }
}

/// The characters of an optional string.
pub open spec fn opt_chars(s: Option<&str>) -> Option<Seq<char>> {
    match s {
        Some(s) => Some(s@),
        None => None,
    }
}

/// Storage for canonical module search directories.
pub struct SearchPathPool {
    dirs: Vec<SharedDir>,
    tokens: PathTokens,
}

impl SearchPathPool {
    /// The directories held, in the order they were first seen.
    pub closed spec fn dirs(&self) -> Seq<SharedDir> {
        self.dirs@
    }

    /// The value substituted for `$LIB`, if set.
    pub closed spec fn lib(&self) -> Option<Seq<u8>> {
        self.tokens.lib()
    }

    /// The value substituted for `$PLATFORM`, if set.
    pub closed spec fn platform(&self) -> Option<Seq<u8>> {
        self.tokens.platform()
    }

    /// The pool holds each directory path at most once.
    #[verifier::type_invariant]
    pub open spec fn wf(&self) -> bool {
        no_repeats(dir_views(self.dirs()))
    }

    /// Creates an empty directory pool.
    pub fn new() -> (r: SearchPathPool)
        ensures
            r.dirs() == Seq::<SharedDir>::empty(),
            r.lib() is None,
            r.platform() is None,
    {
        SearchPathPool { dirs: Vec::new(), tokens: PathTokens::new() }
    }

    /// Sets the target ABI directory substituted for `$LIB` in dynamic paths.
    ///
    /// This describes the target filesystem layout and is intentionally not
    /// inferred from the host running the loader.
    pub fn set_lib(&mut self, lib: &str) -> (r: &mut SearchPathPool)
        ensures
            r.lib() == Some(lib.spec_bytes()),
            r.platform() == old(self).platform(),
            r.dirs() == old(self).dirs(),
            *final(self) == *final(r),
    {
        proof {
            use_type_invariant(&*self);
        }
        let mut tokens = PathTokens::new();
        std::mem::swap(&mut tokens, &mut self.tokens);
        tokens.set_lib(lib);
        self.tokens = tokens;
        self
    }

    /// Sets the target runtime string substituted for `$PLATFORM` in dynamic
    /// paths.
    ///
    /// Native ELF loaders commonly obtain this value from `AT_PLATFORM`.
    pub fn set_platform(&mut self, platform: &str) -> (r: &mut SearchPathPool)
        ensures
            r.platform() == Some(platform.spec_bytes()),
            r.lib() == old(self).lib(),
            r.dirs() == old(self).dirs(),
            *final(self) == *final(r),
    {
        proof {
            use_type_invariant(&*self);
        }
        let mut tokens = PathTokens::new();
        std::mem::swap(&mut tokens, &mut self.tokens);
        tokens.set_platform(platform);
        self.tokens = tokens;
        self
    }

    /// A copy of the token values.
    pub fn tokens(&self) -> (r: PathTokens)
        ensures
            r.lib() == self.lib(),
            r.platform() == self.platform(),
    {
        self.tokens.duplicate()
    }

    /// The directory of `dirs` with the path of `path`, added when there is
    /// none yet.
    pub fn intern(dirs: &mut Vec<SharedDir>, path: PathBuf) -> (r: SharedDir)
        ensures
            no_repeats(dir_views(old(dirs)@)) ==> no_repeats(dir_views(final(dirs)@)),
            r@ == path@,
            final(dirs)@.contains(r),
            dir_views(old(dirs)@).contains(path@) ==> final(dirs)@ == old(dirs)@,
            dir_views(old(dirs)@).contains(path@) ==> exists|i: int|
                0 <= i < old(dirs)@.len() && old(dirs)@[i] == r && forall|j: int|
                    0 <= j < i ==> (#[trigger] old(dirs)@[j])@ != path@,
            !dir_views(old(dirs)@).contains(path@) ==> final(dirs)@ == old(dirs)@.push(r),
            dir_views(final(dirs)@) == add_dir(dir_views(old(dirs)@), Some(path@)),
    {
        let mut i: usize = 0;
        while i < dirs.len()
            invariant
                i <= dirs@.len(),
                dirs@ == old(dirs)@,
                forall|j: int| 0 <= j < i ==> dirs@[j]@ != path@,
            decreases dirs@.len() - i,
        {
            if bytes_eq(dirs[i].path().as_bytes(), path.as_bytes()) {
                let dir = dirs[i].clone();
                assert(dirs@[i as int] == dir);
                assert(dir_views(old(dirs)@)[i as int] == path@);
                return dir;
            }
            i = i + 1;
        }
        assert(!dir_views(dirs@).contains(path@)) by {
            if dir_views(dirs@).contains(path@) {
                let k = choose|k: int| 0 <= k < dir_views(dirs@).len() && dir_views(dirs@)[k] == path@;
                assert(dirs@[k]@ == path@);
            }
        }
        let dir = SharedDir::new(path);
        let copy = dir.clone();
        dirs.push(copy);
        assert(dir_views(dirs@) =~= dir_views(old(dirs)@).push(dir@));
        assert(dir_views(dirs@) == add_dir(dir_views(old(dirs)@), Some(path@)));
        assert(dirs@[dirs@.len() - 1] == dir);
        dir
    }

    /// The directories of `dirs` for each of `paths`, added where missing.
    fn intern_all(dirs: &mut Vec<SharedDir>, paths: &Vec<PathBuf>) -> (r: Vec<SharedDir>)
        requires
            no_repeats(dir_views(old(dirs)@)),
        ensures
            no_repeats(dir_views(final(dirs)@)),
            old(dirs)@.is_prefix_of(final(dirs)@),
            dir_views(final(dirs)@) == pooled(dir_views(old(dirs)@), views(paths@)),
            dir_views(r@) == views(paths@),
            forall|i: int| 0 <= i < r@.len() ==> final(dirs)@.contains(#[trigger] r@[i]),
    {
        let mut out: Vec<SharedDir> = Vec::new();
        let mut i: usize = 0;
        assert(views(paths@).subrange(0, 0) =~= Seq::<Seq<u8>>::empty());
        assert(old(dirs)@.subrange(0, old(dirs)@.len() as int) =~= old(dirs)@);
        while i < paths.len()
            invariant
                i <= paths@.len(),
                out@.len() == i,
                no_repeats(dir_views(dirs@)),
                old(dirs)@.is_prefix_of(dirs@),
                dir_views(dirs@) == pooled(
                    dir_views(old(dirs)@),
                    views(paths@).subrange(0, i as int),
                ),
                forall|j: int| 0 <= j < i ==> (#[trigger] out@[j])@ == paths@[j]@,
                forall|j: int| 0 <= j < i ==> dirs@.contains(#[trigger] out@[j]),
            decreases paths@.len() - i,
        {
            let ghost before = dirs@;
            let dir = Self::intern(dirs, paths[i].as_path().to_path_buf());
            proof {
                assert forall|j: int| 0 <= j < i implies dirs@.contains(#[trigger] out@[j]) by {
                    let k = choose|k: int| 0 <= k < before.len() && before[k] == out@[j];
                    assert(dirs@[k] == before[k]);
                }
                assert(old(dirs)@.is_prefix_of(dirs@)) by {
                    assert(dirs@.subrange(0, before.len() as int) =~= before);
                    assert(old(dirs)@ =~= before.subrange(0, old(dirs)@.len() as int));
                    assert(old(dirs)@ =~= dirs@.subrange(0, old(dirs)@.len() as int));
                }
            }
            proof {
                let vs = views(paths@);
                assert(vs.subrange(0, i + 1).drop_last() =~= vs.subrange(0, i as int));
                assert(vs.subrange(0, i + 1).last() == paths@[i as int]@);
            }
            out.push(dir);
            i = i + 1;
        }
        assert(views(paths@).subrange(0, paths@.len() as int) =~= views(paths@));
        assert(dir_views(out@) =~= views(paths@));
        out
    }

    /// The search metadata of the module loaded from `path`, with its
    /// `DT_RUNPATH` and `DT_RPATH` directories taken from (and added to)
    /// this pool, so that modules share equal directories.
    pub fn module_search(
        &mut self,
        path: PathBuf,
        soname: Option<&str>,
        runpath: Option<&str>,
        rpath: Option<&str>,
    ) -> (r: ModuleSearch)
        ensures
            old(self).dirs().is_prefix_of(final(self).dirs()),
            final(self).lib() == old(self).lib(),
            final(self).platform() == old(self).platform(),
            r.path_view() == path@,
            r.soname_view() == opt_chars(soname),
            opt_dir_views(r.runpath_view()) == opt_search_dirs(
                runpath,
                parent_of(path@),
                old(self).lib(),
                old(self).platform(),
            ),
            opt_dir_views(r.rpath_view()) == opt_search_dirs(
                rpath,
                parent_of(path@),
                old(self).lib(),
                old(self).platform(),
            ),
            dir_views(final(self).dirs()) == opt_pooled(
                opt_pooled(dir_views(old(self).dirs()), opt_dir_views(r.runpath_view())),
                opt_dir_views(r.rpath_view()),
            ),
            all_in(r.runpath_view(), final(self).dirs()),
            all_in(r.rpath_view(), final(self).dirs()),
    {
        proof {
            use_type_invariant(&*self);
        }
        let mut dirs: Vec<SharedDir> = Vec::new();
        std::mem::swap(&mut dirs, &mut self.dirs);
        let origin = path.as_path().parent();
        let runpath_dirs = match runpath {
            Some(value) => {
                let paths = expand_dirs(value, origin, &self.tokens);
                Some(Self::intern_all(&mut dirs, &paths))
            },
            None => None,
        };
        let ghost mid = dirs@;
        let rpath_dirs = match rpath {
            Some(value) => {
                let paths = expand_dirs(value, origin, &self.tokens);
                Some(Self::intern_all(&mut dirs, &paths))
            },
            None => None,
        };
        proof {
            if let Some(d) = &runpath_dirs {
                assert forall|i: int| 0 <= i < d@.len() implies dirs@.contains(#[trigger] d@[i]) by {
                    let k = choose|k: int| 0 <= k < mid.len() && mid[k] == d@[i];
                    assert(dirs@[k] == mid[k]);
                }
            }
        }
        self.dirs = dirs;
        ModuleSearch {
            path,
            soname: copy_str(soname),
            runpath: runpath_dirs,
            rpath: rpath_dirs,
        }
    }
}

impl Default for SearchPathPool {
    fn default() -> (r: SearchPathPool)
        ensures
            r.dirs() == Seq::<SharedDir>::empty(),
            r.lib() is None,
            r.platform() is None,
    {
        SearchPathPool::new()
    }
}

/// An owned copy of an optional string.
fn copy_str(s: Option<&str>) -> (r: Option<String>)
    ensures
        match (r, s) {
            (Some(a), Some(b)) => a@ == b@,
            (None, None) => true,
            _ => false,
        },
{
    match s {
        Some(s) => Some(s.to_owned()),
        None => None,
    }
}

/// Unshared directories for `paths`.
fn fresh_dirs(paths: &Vec<PathBuf>) -> (r: Vec<SharedDir>)
    ensures
        dir_views(r@) == views(paths@),
{
    let mut out: Vec<SharedDir> = Vec::new();
    let mut i: usize = 0;
    while i < paths.len()
        invariant
            i <= paths@.len(),
            out@.len() == i,
            forall|j: int| 0 <= j < i ==> (#[trigger] out@[j])@ == paths@[j]@,
        decreases paths@.len() - i,
    {
        out.push(SharedDir::new(paths[i].as_path().to_path_buf()));
        i = i + 1;
    }
    assert(dir_views(out@) =~= views(paths@));
    out
}

/// Dynamic search metadata retained by a module.
///
/// Dynamic string tokens in `DT_RUNPATH` and `DT_RPATH` are expanded when this
/// value is created. Their directories may be shared with other modules through
/// a `SearchPathPool`.
pub struct ModuleSearch {
    path: PathBuf,
    soname: Option<String>,
    runpath: Option<Vec<SharedDir>>,
    rpath: Option<Vec<SharedDir>>,
}

impl ModuleSearch {
    /// The module's loaded path.
    pub closed spec fn path_view(&self) -> Seq<u8> {
        self.path@
    }

    /// `DT_SONAME`, if present.
    pub closed spec fn soname_view(&self) -> Option<Seq<char>> {
        match self.soname {
            Some(s) => Some(s@),
            None => None,
        }
    }

    /// The `DT_RUNPATH` directories, if the tag is present.
    pub closed spec fn runpath_view(&self) -> Option<Seq<SharedDir>> {
        match self.runpath {
            Some(d) => Some(d@),
            None => None,
        }
    }

    /// The `DT_RPATH` directories, if the tag is present.
    pub closed spec fn rpath_view(&self) -> Option<Seq<SharedDir>> {
        match self.rpath {
            Some(d) => Some(d@),
            None => None,
        }
    }

    /// Search metadata with an empty path and no dynamic tags.
    pub fn empty() -> (r: ModuleSearch)
        ensures
            r.path_view() == Seq::<u8>::empty(),
            r.soname_view() is None,
            r.runpath_view() is None,
            r.rpath_view() is None,
    {
        ModuleSearch { path: PathBuf::new(), soname: None, runpath: None, rpath: None }
    }

    /// Search metadata for `path` with no dynamic tags.
    pub fn new(path: PathBuf) -> (r: ModuleSearch)
        ensures
            r.path_view() == path@,
            r.soname_view() is None,
            r.runpath_view() is None,
            r.rpath_view() is None,
    {
        ModuleSearch { path, soname: None, runpath: None, rpath: None }
    }

    /// Search metadata for the module loaded from `path`, with directories
    /// of its own (shared with no other module) and no `$LIB` or
    /// `$PLATFORM` values.
    pub fn from_dynamic(
        path: PathBuf,
        soname: Option<&str>,
        runpath: Option<&str>,
        rpath: Option<&str>,
    ) -> (r: ModuleSearch)
        ensures
            r.path_view() == path@,
            r.soname_view() == opt_chars(soname),
            opt_dir_views(r.runpath_view()) == opt_search_dirs(
                runpath,
                parent_of(path@),
                None,
                None,
            ),
            opt_dir_views(r.rpath_view()) == opt_search_dirs(rpath, parent_of(path@), None, None),
    {
        let tokens = PathTokens::new();
        let origin = path.as_path().parent();
        let runpath_dirs = match runpath {
            Some(value) => Some(fresh_dirs(&expand_dirs(value, origin, &tokens))),
            None => None,
        };
        let rpath_dirs = match rpath {
            Some(value) => Some(fresh_dirs(&expand_dirs(value, origin, &tokens))),
            None => None,
        };
        ModuleSearch {
            path,
            soname: copy_str(soname),
            runpath: runpath_dirs,
            rpath: rpath_dirs,
        }
    }

    /// Returns the loaded path's file name for diagnostics.
    pub fn name(&self) -> (r: &[u8])
        ensures
            r@ == file_name_of(self.path_view()),
    {
        self.path.as_path().file_name()
    }

    /// Returns the module's loaded path.
    pub fn path(&self) -> (r: Path<'_>)
        ensures
            r@ == self.path_view(),
    {
        self.path.as_path()
    }

    /// Returns `DT_SONAME`, if present.
    pub fn soname(&self) -> (r: Option<&str>)
        ensures
            opt_chars(r) == self.soname_view(),
    {
        match &self.soname {
            Some(s) => Some(s.as_str()),
            None => None,
        }
    }

    /// The expanded `DT_RUNPATH` directories, if the tag is present.
    pub fn runpath(&self) -> (r: Option<Vec<Path<'_>>>)
        ensures
            opt_path_views(r) == opt_dir_views(self.runpath_view()),
    {
        match &self.runpath {
            Some(dirs) => Some(dir_paths(dirs)),
            None => None,
        }
    }

    /// The expanded `DT_RPATH` directories, if the tag is present.
    pub fn rpath(&self) -> (r: Option<Vec<Path<'_>>>)
        ensures
            opt_path_views(r) == opt_dir_views(self.rpath_view()),
    {
        match &self.rpath {
            Some(dirs) => Some(dir_paths(dirs)),
            None => None,
        }
    }

    /// The `DT_RUNPATH` directories, if the tag is present.
    pub fn runpath_dirs(&self) -> (r: Option<&[SharedDir]>)
        ensures
            match (r, self.runpath_view()) {
                (Some(a), Some(b)) => a@ == b,
                (None, None) => true,
                _ => false,
            },
    {
        match &self.runpath {
            Some(dirs) => Some(dirs.as_slice()),
            None => None,
        }
    }

    /// The `DT_RPATH` directories, if the tag is present.
    pub fn rpath_dirs(&self) -> (r: Option<&[SharedDir]>)
        ensures
            match (r, self.rpath_view()) {
                (Some(a), Some(b)) => a@ == b,
                (None, None) => true,
                _ => false,
            },
    {
        match &self.rpath {
            Some(dirs) => Some(dirs.as_slice()),
            None => None,
        }
    }
}

/// The byte sequences of optional borrowed paths.
pub open spec fn opt_path_views(v: Option<Vec<Path<'_>>>) -> Option<Seq<Seq<u8>>> {
    match v {
        Some(p) => Some(p@.map_values(|q: Path<'_>| q@)),
        None => None,
    }
}

/// The paths of `dirs`.
fn dir_paths<'a>(dirs: &'a Vec<SharedDir>) -> (r: Vec<Path<'a>>)
    ensures
        r@.map_values(|q: Path<'a>| q@) == dir_views(dirs@),
{
    let mut out: Vec<Path<'a>> = Vec::new();
    let mut i: usize = 0;
    while i < dirs.len()
        invariant
            i <= dirs@.len(),
            out@.len() == i,
            forall|j: int| 0 <= j < i ==> (#[trigger] out@[j])@ == dirs@[j]@,
        decreases dirs@.len() - i,
    {
        out.push(dirs[i].path());
        i = i + 1;
    }
    assert(out@.map_values(|q: Path<'a>| q@) =~= dir_views(dirs@));
    out
}

/// The directories collected from pieces hold no path twice, and each is
/// in normal form.
proof fn lemma_collect_dirs(
    parts: Seq<Seq<u8>>,
    origin: Seq<u8>,
    lib: Option<Seq<u8>>,
    platform: Option<Seq<u8>>,
)
    ensures
        no_repeats(collect_dirs(parts, origin, lib, platform)),
        forall|i: int|
            0 <= i < collect_dirs(parts, origin, lib, platform).len() ==> normalized(
                #[trigger] collect_dirs(parts, origin, lib, platform)[i],
            ) == collect_dirs(parts, origin, lib, platform)[i],
    decreases parts.len(),
{
    if parts.len() > 0 {
        lemma_collect_dirs(parts.drop_last(), origin, lib, platform);
        let done = collect_dirs(parts.drop_last(), origin, lib, platform);
        match dir_of(parts.last(), origin, lib, platform) {
            Some(d) => {
                if parts.last().len() == 0 {
                    assert(normalized(seq![dot()]) == seq![dot()]);
                } else {
                    lemma_normalized_idempotent(
                        expansion(parts.last(), origin, lib, platform).unwrap(),
                    );
                }
                if !done.contains(d) {
                    let all = done.push(d);
                    assert forall|i: int, j: int| 0 <= i < j < all.len() implies all[i] != all[j] by {
                        if j == all.len() - 1 {
                            assert(done[i] == all[i]);
                        }
                    }
                }
            },
            None => {},
        }
    }
}

/// A search path gives each directory at most once, in normal form.
pub proof fn lemma_search_dirs_distinct_normalized(
    value: Seq<u8>,
    origin: Seq<u8>,
    lib: Option<Seq<u8>>,
    platform: Option<Seq<u8>>,
)
    ensures
        no_repeats(search_dirs(value, origin, lib, platform)),
        forall|i: int|
            0 <= i < search_dirs(value, origin, lib, platform).len() ==> normalized(
                #[trigger] search_dirs(value, origin, lib, platform)[i],
            ) == search_dirs(value, origin, lib, platform)[i],
{
    if value.len() > 0 {
        lemma_collect_dirs(split_colons(value), origin, lib, platform);
    }
}

/// Two directories of one pool with the same path are the same directory:
/// modules that take their search directories from a pool share them.
pub proof fn lemma_pooled_dirs_shared(pool: SearchPathPool, a: SharedDir, b: SharedDir)
    requires
        pool.wf(),
        pool.dirs().contains(a),
        pool.dirs().contains(b),
        a@ == b@,
    ensures
        a == b,
{
    let d = pool.dirs();
    let i = choose|i: int| 0 <= i < d.len() && d[i] == a;
    let j = choose|j: int| 0 <= j < d.len() && d[j] == b;
    assert(dir_views(d)[i] == a@);
    assert(dir_views(d)[j] == b@);
    if i < j {
        assert(dir_views(d)[i] != dir_views(d)[j]);
    } else if j < i {
        assert(dir_views(d)[j] != dir_views(d)[i]);
    }
}

/// A pool keeps the directories it held: after a later `module_search`
/// (which only adds directories) they are still there.
pub proof fn lemma_pool_keeps_dirs(before: SearchPathPool, after: SearchPathPool, d: SharedDir)
    requires
        before.dirs().is_prefix_of(after.dirs()),
        before.dirs().contains(d),
    ensures
        after.dirs().contains(d),
{
    let i = choose|i: int| 0 <= i < before.dirs().len() && before.dirs()[i] == d;
    assert(after.dirs().subrange(0, before.dirs().len() as int)[i] == after.dirs()[i]);
}

/// A search path always splits into at least one piece.
proof fn lemma_split_colons_len(s: Seq<u8>)
    ensures
        split_colons(s).len() >= 1,
    decreases s.len(),
{
    if s.len() > 0 {
        lemma_split_colons_len(s.drop_last());
    }
}

/// Splitting `a:b` gives the pieces of `a` followed by those of `b`.
pub proof fn lemma_split_colons_concat(a: Seq<u8>, b: Seq<u8>)
    ensures
        split_colons(a + seq![colon()] + b) == split_colons(a) + split_colons(b),
    decreases b.len(),
{
    let s = a + seq![colon()] + b;
    if b.len() == 0 {
        assert(s.drop_last() =~= a);
        assert(split_colons(a).push(Seq::<u8>::empty()) =~= split_colons(a) + seq![
            Seq::<u8>::empty(),
        ]);
    } else {
        let b0 = b.drop_last();
        lemma_split_colons_concat(a, b0);
        assert(s.drop_last() =~= a + seq![colon()] + b0);
        lemma_split_colons_len(b0);
        let x = split_colons(a);
        let y = split_colons(b0);
        if b.last() == colon() {
            assert((x + y).push(Seq::<u8>::empty()) =~= x + y.push(Seq::<u8>::empty()));
        } else {
            let xy = x + y;
            assert(xy.update(xy.len() - 1, xy.last().push(b.last())) =~= x + y.update(
                y.len() - 1,
                y.last().push(b.last()),
            ));
        }
    }
}

/// Collecting more pieces only adds directories at the end: the
/// directories of `p` stay first, in their order.
pub proof fn lemma_collect_dirs_prefix(
    p: Seq<Seq<u8>>,
    q: Seq<Seq<u8>>,
    origin: Seq<u8>,
    lib: Option<Seq<u8>>,
    platform: Option<Seq<u8>>,
)
    ensures
        collect_dirs(p, origin, lib, platform).is_prefix_of(
            collect_dirs(p + q, origin, lib, platform),
        ),
    decreases q.len(),
{
    let c = collect_dirs(p, origin, lib, platform);
    if q.len() == 0 {
        assert(p + q =~= p);
        assert(c.subrange(0, c.len() as int) =~= c);
    } else {
        lemma_collect_dirs_prefix(p, q.drop_last(), origin, lib, platform);
        assert((p + q).drop_last() =~= p + q.drop_last());
        assert((p + q).last() == q.last());
        let before = collect_dirs(p + q.drop_last(), origin, lib, platform);
        let after = collect_dirs(p + q, origin, lib, platform);
        assert(after == before || after == before.push(
            dir_of(q.last(), origin, lib, platform).unwrap(),
        ));
        assert(after.subrange(0, c.len() as int) =~= before.subrange(0, c.len() as int));
    }
}

/// Appending pieces to a search path never reorders its directories: the
/// directories of a non-empty `a` come first, in their order of first
/// appearance, in those of `a:b`.
pub proof fn lemma_search_dirs_append(
    a: Seq<u8>,
    b: Seq<u8>,
    origin: Seq<u8>,
    lib: Option<Seq<u8>>,
    platform: Option<Seq<u8>>,
)
    requires
        a.len() > 0,
    ensures
        search_dirs(a, origin, lib, platform).is_prefix_of(
            search_dirs(a + seq![colon()] + b, origin, lib, platform),
        ),
{
    lemma_split_colons_concat(a, b);
    lemma_collect_dirs_prefix(split_colons(a), split_colons(b), origin, lib, platform);
}

} // verus!
