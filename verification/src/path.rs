//! Byte paths used by the ELF loader: borrowed views (`PathStr`, `Path`) and
//! owned buffers (`PathString`, `PathBuf`), all modelled as byte sequences.
use vstd::prelude::*;
use vstd::string::StringSliceAdditionalSpecFns;

verus! {

broadcast use {vstd::seq_lib::group_seq_properties, vstd::slice::group_slice_axioms};

/// The byte `.`.
pub open spec fn dot() -> u8 {
    0x2e
}

/// The byte `/`.
pub open spec fn slash() -> u8 {
    0x2f
}

/// Whether `b` separates directories: `/` or `\`.
pub open spec fn is_sep(b: u8) -> bool {
    b == 0x2f || b == 0x5c
}

/// Whether some byte of `s` is a directory separator.
pub open spec fn has_sep(s: Seq<u8>) -> bool {
    exists|i: int| 0 <= i < s.len() && is_sep(#[trigger] s[i])
}

/// Index of the last directory separator of `s`, or `-1` when there is none.
pub open spec fn last_sep(s: Seq<u8>) -> int
    decreases s.len(),
{
    if s.len() == 0 {
        -1
    } else if is_sep(s.last()) {
        s.len() - 1
    } else {
        last_sep(s.drop_last())
    }
}

/// The last component of `s`: what follows its last separator, or all of `s`.
pub open spec fn file_name_of(s: Seq<u8>) -> Seq<u8> {
    let i = last_sep(s);
    if i < 0 {
        s
    } else {
        s.subrange(i + 1, s.len() as int)
    }
}

/// The directory used for `$ORIGIN`: `.` when `s` has no separator, the
/// leading separator alone when the only separator starts `s`, otherwise
/// everything before the last separator.
pub open spec fn parent_of(s: Seq<u8>) -> Seq<u8> {
    let i = last_sep(s);
    if i < 0 {
        seq![dot()]
    } else if i == 0 {
        s.subrange(0, 1)
    } else {
        s.subrange(0, i)
    }
}

/// `name` placed under the directory `dir`, with exactly one separator added
/// only where `dir` does not already end in one; an empty or `.` directory
/// leaves `name` as it is.
pub open spec fn joined(dir: Seq<u8>, name: Seq<u8>) -> Seq<u8> {
    if dir.len() == 0 || dir == seq![dot()] {
        name
    } else if is_sep(dir.last()) {
        dir + name
    } else {
        dir + seq![slash()] + name
    }
}

/// An absolute path on Unix-like targets: it starts with `/`.
pub open spec fn is_unix_absolute(s: Seq<u8>) -> bool {
    s.len() > 0 && s[0] == slash()
}

/// An absolute path on Windows targets: it starts with two separators (UNC),
/// or with a drive letter, `:` and a separator.
pub open spec fn is_windows_absolute(s: Seq<u8>) -> bool {
    (s.len() >= 2 && is_sep(s[0]) && is_sep(s[1])) || (s.len() >= 3 && s[1] == 0x3a && is_sep(
        s[2],
    ))
}

/// Whether `s` is absolute on a Windows target (`windows`) or on a
/// Unix-like one.
pub open spec fn is_absolute_on(s: Seq<u8>, windows: bool) -> bool {
    if windows {
        is_windows_absolute(s)
    } else {
        is_unix_absolute(s)
    }
}

/// `std::path::Path::is_absolute` on `p`: whether the standard library
/// takes `p` as absolute on the target the crate is built for. Nothing is
/// stated of it, since its answer depends on that target.
#[verifier::external_body]
fn std_is_absolute(p: &str) -> bool {
    std::path::Path::new(p).is_absolute()
}

/// Whether the crate is built for a Windows target: only there does the
/// standard library take a drive path such as `C:\` as absolute.
pub fn target_is_windows() -> bool {
    std_is_absolute("C:\\")
}

/// What `last_sep` is: the greatest separator index, `-1` when there is none.
pub proof fn lemma_last_sep(s: Seq<u8>)
    ensures
        -1 <= last_sep(s) < s.len(),
        last_sep(s) >= 0 ==> is_sep(s[last_sep(s)]),
        forall|j: int| last_sep(s) < j < s.len() ==> !is_sep(#[trigger] s[j]),
        last_sep(s) < 0 <==> !has_sep(s),
    decreases s.len(),
{
    if s.len() > 0 && !is_sep(s.last()) {
        lemma_last_sep(s.drop_last());
        assert forall|j: int| last_sep(s) < j < s.len() implies !is_sep(#[trigger] s[j]) by {
            if j < s.len() - 1 {
                assert(s[j] == s.drop_last()[j]);
            }
        }
        if has_sep(s) {
            let k = choose|k: int| 0 <= k < s.len() && is_sep(#[trigger] s[k]);
            assert(s.drop_last()[k] == s[k]);
        }
        if has_sep(s.drop_last()) {
            let k = choose|k: int| 0 <= k < s.drop_last().len() && is_sep(#[trigger] s.drop_last()[k]);
            assert(s[k] == s.drop_last()[k]);
        }
    }
}

/// Position of the last directory separator of `bytes`.
fn find_last_sep(bytes: &[u8]) -> (r: Option<usize>)
    ensures
        r matches Some(i) ==> i == last_sep(bytes@),
        r is None ==> last_sep(bytes@) == -1,
{
    let mut k: usize = bytes.len();
    assert(bytes@.subrange(0, k as int) =~= bytes@);
    while k > 0
        invariant
            k <= bytes@.len(),
            last_sep(bytes@) == last_sep(bytes@.subrange(0, k as int)),
        decreases k,
    {
        let ghost pre = bytes@.subrange(0, k as int);
        if bytes[k - 1] == 0x2f || bytes[k - 1] == 0x5c {
            return Some(k - 1);
        }
        assert(pre.drop_last() =~= bytes@.subrange(0, k - 1));
        k = k - 1;
    }
    assert(bytes@.subrange(0, 0).len() == 0);
    None
}

/// A string that can be part of a path.
///
/// It holds UTF-8 or a superset of it, such as the bytes of an `OsStr`.
#[derive(Clone, Copy, Debug, PartialEq, Eq, PartialOrd, Ord, Hash)]
pub struct PathStr<'a> {
    bytes: &'a [u8],
}

impl<'a> View for PathStr<'a> {
    type V = Seq<u8>;

    closed spec fn view(&self) -> Seq<u8> {
        self.bytes@
    }
}

impl<'a> PathStr<'a> {
    /// Views `bytes` as a path string.
    pub fn new(bytes: &'a [u8]) -> (r: PathStr<'a>)
        ensures
            r@ == bytes@,
    {
        PathStr { bytes }
    }

    /// Converts this path string to a byte slice.
    pub fn as_bytes(&self) -> (r: &'a [u8])
        ensures
            r@ == self@,
    {
        self.bytes
    }

    /// Copies this path string into an owned `PathString`.
    pub fn to_path_string(&self) -> (r: PathString)
        ensures
            r@ == self@,
    {
        let mut s = PathString::new();
        s.push(*self);
        assert(s@ =~= self@);
        s
    }
}

/// Owned version of `PathStr`.
#[derive(Clone, Debug, PartialEq, Eq, PartialOrd, Ord, Hash)]
pub struct PathString {
    bytes: Vec<u8>,
}

impl View for PathString {
    type V = Seq<u8>;

    closed spec fn view(&self) -> Seq<u8> {
        self.bytes@
    }
}

impl PathString {
    /// Creates an empty path string.
    pub fn new() -> (r: PathString)
        ensures
            r@ == Seq::<u8>::empty(),
    {
        PathString { bytes: Vec::new() }
    }

    /// Clears the string.
    pub fn clear(&mut self)
        ensures
            final(self)@ == Seq::<u8>::empty(),
    {
        self.bytes.clear();
    }

    /// Reserves capacity for at least `additional` more bytes; the bytes held
    /// stay as they are (capacity is not part of the model).
    pub fn reserve(&mut self, additional: usize)
        ensures
            final(self)@ == old(self)@,
    {
        self.bytes.reserve(additional);
    }

    /// Consumes `self` and returns its bytes.
    pub fn into_bytes(self) -> (r: Vec<u8>)
        ensures
            r@ == self@,
    {
        self.bytes
    }

    /// Extends `self` with `s`.
    pub fn push(&mut self, s: PathStr<'_>)
        ensures
            final(self)@ == old(self)@ + s@,
    {
        let other = s.as_bytes();
        self.bytes.extend_from_slice(other);
        assert(self.bytes@ =~= old(self)@ + s@) by {
            assert forall|i: int| 0 <= i < self.bytes@.len() implies self.bytes@[i] == (old(
                self,
            )@ + s@)[i] by {
                if i >= old(self)@.len() {
                    assert(cloned::<u8>(other@[i - old(self)@.len()], self.bytes@[i]));
                }
            }
        }
    }

    /// Borrows this string as a `PathStr`.
    pub fn as_path_str(&self) -> (r: PathStr<'_>)
        ensures
            r@ == self@,
    {
        PathStr { bytes: self.bytes.as_slice() }
    }

    /// Converts this path string to a byte slice.
    pub fn as_bytes(&self) -> (r: &[u8])
        ensures
            r@ == self@,
    {
        self.bytes.as_slice()
    }
}

/// Borrowed ELF loader path.
///
/// `Path` is a small path view used by file-backed inputs and linker
/// resolvers. It models only the path operations needed by ELF loading and
/// `DT_NEEDED` search.
#[derive(Clone, Copy, Debug, PartialEq, Eq, PartialOrd, Ord, Hash)]
pub struct Path<'a> {
    inner: PathStr<'a>,
}

impl<'a> View for Path<'a> {
    type V = Seq<u8>;

    closed spec fn view(&self) -> Seq<u8> {
        self.inner@
    }
}

impl<'a> Path<'a> {
    /// Creates a borrowed loader path from a string.
    pub fn new(s: &'a str) -> (r: Path<'a>)
        ensures
            r@ == s.spec_bytes(),
    {
        Path { inner: PathStr::new(s.as_bytes()) }
    }

    /// Creates a borrowed loader path from a path string.
    pub fn from_path_str(s: PathStr<'a>) -> (r: Path<'a>)
        ensures
            r@ == s@,
    {
        Path { inner: s }
    }

    /// Converts this path to a byte slice.
    pub fn as_bytes(&self) -> (r: &'a [u8])
        ensures
            r@ == self@,
    {
        self.inner.as_bytes()
    }

    /// Borrows this path as a `PathStr`.
    pub fn as_path_str(&self) -> (r: PathStr<'a>)
        ensures
            r@ == self@,
    {
        self.inner
    }

    /// Returns whether the path contains `/` or `\`.
    pub fn has_dir_separator(&self) -> (r: bool)
        ensures
            r == has_sep(self@),
    {
        let bytes = self.as_bytes();
        let found = find_last_sep(bytes);
        proof {
            lemma_last_sep(bytes@);
        }
        found.is_some()
    }

    /// Returns whether the path is absolute on the target: by the Windows
    /// rules on Windows targets, by the Unix rules elsewhere.
    pub fn is_absolute(&self) -> (r: bool)
        ensures
            r == is_unix_absolute(self@) || r == is_windows_absolute(self@),
    {
        if target_is_windows() {
            self.is_absolute_windows()
        } else {
            self.is_absolute_unix()
        }
    }

    /// Returns whether the path is absolute on Unix-like targets.
    pub fn is_absolute_unix(&self) -> (r: bool)
        ensures
            r == is_unix_absolute(self@),
    {
        let bytes = self.as_bytes();
        bytes.len() > 0 && bytes[0] == 0x2f
    }

    /// Returns whether the path is absolute on Windows targets.
    pub fn is_absolute_windows(&self) -> (r: bool)
        ensures
            r == is_windows_absolute(self@),
    {
        let bytes = self.as_bytes();
        (bytes.len() >= 2 && (bytes[0] == 0x2f || bytes[0] == 0x5c) && (bytes[1] == 0x2f
            || bytes[1] == 0x5c)) || (bytes.len() >= 3 && bytes[1] == 0x3a && (bytes[2] == 0x2f
            || bytes[2] == 0x5c))
    }

    /// Returns the parent directory used for `$ORIGIN` expansion.
    ///
    /// Paths without a directory separator return `"."`; paths directly under
    /// the filesystem root return `"/"`.
    pub fn parent(&self) -> (r: Path<'a>)
        ensures
            r@ == parent_of(self@),
    {
        let path = self.as_bytes();
        match find_last_sep(path) {
            None => {
                let current = ".";
                proof {
                    reveal_strlit(".");
                    vstd::string::is_ascii_spec_bytes(current);
                }
                let r = Path::new(current);
                assert(r@ =~= seq![dot()]);
                r
            },
            Some(index) => {
                let end: usize = if index == 0 {
                    1
                } else {
                    index
                };
                proof {
                    lemma_last_sep(path@);
                }
                Path { inner: PathStr::new(vstd::slice::slice_subrange(path, 0, end)) }
            },
        }
    }

    /// Returns the last path component.
    pub fn file_name(&self) -> (r: &'a [u8])
        ensures
            r@ == file_name_of(self@),
    {
        let path = self.as_bytes();
        let found = find_last_sep(path);
        proof {
            lemma_last_sep(path@);
        }
        match found {
            None => path,
            Some(index) => {
                let len = path.len();
                assert(index < len);
                vstd::slice::slice_subrange(path, index + 1, len)
            },
        }
    }

    /// Joins a child path or filename to this directory.
    pub fn join(&self, name: Path<'_>) -> (r: PathBuf)
        ensures
            r@ == joined(self@, name@),
    {
        let mut path = PathBuf::new();
        path.set_joined(*self, name);
        path
    }

    /// Copies this path into an owned `PathBuf`.
    pub fn to_path_buf(&self) -> (r: PathBuf)
        ensures
            r@ == self@,
    {
        PathBuf { inner: self.inner.to_path_string() }
    }
}

/// Owned ELF loader path.
#[derive(Clone, Debug, PartialEq, Eq, PartialOrd, Ord, Hash)]
pub struct PathBuf {
    inner: PathString,
}

impl View for PathBuf {
    type V = Seq<u8>;

    closed spec fn view(&self) -> Seq<u8> {
        self.inner@
    }
}

impl PathBuf {
    /// Creates an empty owned loader path.
    pub fn new() -> (r: PathBuf)
        ensures
            r@ == Seq::<u8>::empty(),
    {
        PathBuf { inner: PathString::new() }
    }

    /// Takes ownership of the bytes of `s` as a path.
    pub fn from_path_string(s: PathString) -> (r: PathBuf)
        ensures
            r@ == s@,
    {
        PathBuf { inner: s }
    }

    /// Returns this owned path as a borrowed `Path`.
    pub fn as_path(&self) -> (r: Path<'_>)
        ensures
            r@ == self@,
    {
        Path { inner: self.inner.as_path_str() }
    }

    /// Returns this path as its underlying bytes slice.
    pub fn as_bytes(&self) -> (r: &[u8])
        ensures
            r@ == self@,
    {
        self.inner.as_bytes()
    }

    /// Consumes the path and returns the owned bytes.
    pub fn into_bytes(self) -> (r: Vec<u8>)
        ensures
            r@ == self@,
    {
        self.inner.into_bytes()
    }

    /// Extends `self` with the bytes of `path`; no separator is added.
    pub fn push(&mut self, path: Path<'_>)
        ensures
            final(self)@ == old(self)@ + path@,
    {
        self.inner.push(path.as_path_str());
    }

    /// Replaces the contents of `self` with `name` joined under `dir`.
    pub fn set_joined(&mut self, dir: Path<'_>, name: Path<'_>)
        ensures
            final(self)@ == joined(dir@, name@),
    {
        self.inner.clear();
        let dir_bytes = dir.as_bytes();
        let name_bytes = name.as_bytes();
        if dir_bytes.len() == 0 || (dir_bytes.len() == 1 && dir_bytes[0] == 0x2e) {
            self.inner.push(name.as_path_str());
            assert(self.inner@ =~= name@);
            proof {
                if dir@.len() == 1 {
                    assert(dir@ =~= seq![dot()]);
                }
            }
            return ;
        }
        let last = dir_bytes[dir_bytes.len() - 1];
        let needs_separator = !(last == 0x2f || last == 0x5c);
        assert(dir@ != seq![dot()]) by {
            if dir@.len() == 1 {
                assert(dir@[0] != dot());
            }
        }
        let separator_len: usize = if needs_separator {
            1
        } else {
            0
        };
        self.inner.reserve(dir_bytes.len().saturating_add(separator_len).saturating_add(name_bytes.len()));
        self.inner.push(dir.as_path_str());
        if needs_separator {
            let sep = "/";
            proof {
                reveal_strlit("/");
                vstd::string::is_ascii_spec_bytes(sep);
            }
            self.inner.push(PathStr::new(sep.as_bytes()));
            assert(sep.spec_bytes() =~= seq![slash()]);
        }
        self.inner.push(name.as_path_str());
    }
}

/// A path splits at its last separator into its parent and its file name:
/// with no separator the parent is `.` and the file name is the whole path;
/// with the only separator in front, the parent is that separator and the
/// path is the parent followed by the file name; otherwise the path is the
/// parent, the separator, then the file name.
pub proof fn lemma_parent_and_file_name(s: Seq<u8>)
    ensures
        !has_sep(s) ==> parent_of(s) == seq![dot()] && file_name_of(s) == s,
        has_sep(s) && last_sep(s) == 0 ==> s == parent_of(s) + file_name_of(s),
        has_sep(s) && last_sep(s) > 0 ==> s == parent_of(s) + seq![s[last_sep(s)]]
            + file_name_of(s),
        !has_sep(file_name_of(s)),
{
    lemma_last_sep(s);
    let i = last_sep(s);
    if i >= 0 {
        if i == 0 {
            assert(s =~= s.subrange(0, 1) + s.subrange(1, s.len() as int));
        } else {
            assert(s =~= s.subrange(0, i) + seq![s[i]] + s.subrange(i + 1, s.len() as int));
        }
        let f = file_name_of(s);
        if has_sep(f) {
            let k = choose|k: int| 0 <= k < f.len() && is_sep(#[trigger] f[k]);
            assert(f[k] == s[i + 1 + k]);
        }
    }
}

/// Joining a file name (a name without separators) to a directory and
/// taking the last component gives the name back.
pub proof fn lemma_join_file_name(dir: Seq<u8>, name: Seq<u8>)
    requires
        !has_sep(name),
    ensures
        file_name_of(joined(dir, name)) == name,
{
    let j = joined(dir, name);
    lemma_last_sep(j);
    lemma_last_sep(name);
    if dir.len() == 0 || dir == seq![dot()] {
        assert(last_sep(name) < 0);
    } else {
        let sep_at = j.len() - name.len() - 1;
        if is_sep(dir.last()) {
            assert(j =~= dir + name);
        } else {
            assert(j =~= (dir + seq![slash()]) + name);
        }
        assert(j[sep_at] == if is_sep(dir.last()) {
            dir.last()
        } else {
            slash()
        });
        assert forall|k: int| sep_at < k < j.len() implies !is_sep(#[trigger] j[k]) by {
            assert(j[k] == name[k - sep_at - 1]);
        }
        if last_sep(j) != sep_at {
            if last_sep(j) < sep_at {
                assert(is_sep(j[sep_at]));
            }
        }
        assert(j.subrange(sep_at + 1, j.len() as int) =~= name);
    }
}

/// The parent of a file name joined to a directory is that directory, when
/// the directory is not empty and does not end in a separator.
pub proof fn lemma_join_parent(dir: Seq<u8>, name: Seq<u8>)
    requires
        !has_sep(name),
        dir.len() > 0,
        !is_sep(dir.last()),
    ensures
        parent_of(joined(dir, name)) == dir,
{
    let j = joined(dir, name);
    if dir == seq![dot()] {
        lemma_last_sep(name);
        return;
    }
    lemma_last_sep(j);
    let sep_at = dir.len() as int;
    assert(j =~= (dir + seq![slash()]) + name);
    assert forall|k: int| sep_at < k < j.len() implies !is_sep(#[trigger] j[k]) by {
        assert(j[k] == name[k - sep_at - 1]);
    }
    assert(is_sep(j[sep_at]));
    assert(last_sep(j) == sep_at);
    assert(j.subrange(0, sep_at) =~= dir);
}

/// Joining any name (with or without separators) under a directory that
/// is neither empty nor `.` keeps the whole directory in front and the
/// whole name at the end, with one `/` between them exactly when the
/// directory does not already end in a separator.
pub proof fn lemma_join_keeps_dir_and_name(dir: Seq<u8>, name: Seq<u8>)
    requires
        dir.len() > 0,
        dir != seq![dot()],
    ensures
        dir.is_prefix_of(joined(dir, name)),
        joined(dir, name).len() >= dir.len() + name.len(),
        joined(dir, name).subrange(
            joined(dir, name).len() - name.len(),
            joined(dir, name).len() as int,
        ) == name,
        !is_sep(dir.last()) ==> joined(dir, name) == dir + seq![slash()] + name,
        is_sep(dir.last()) ==> joined(dir, name) == dir + name,
{
    let j = joined(dir, name);
    if is_sep(dir.last()) {
        assert(j.subrange(0, dir.len() as int) =~= dir);
        assert(j.subrange(j.len() - name.len(), j.len() as int) =~= name);
    } else {
        assert(j.subrange(0, dir.len() as int) =~= dir);
        assert(j.subrange(j.len() - name.len(), j.len() as int) =~= name);
    }
}

} // verus!
