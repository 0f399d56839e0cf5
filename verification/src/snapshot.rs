//! Choosing and packing the files of a verification snapshot: which paths
//! may be sent, which are secrets or build outputs, how paths are written on
//! the wire, and the limits a snapshot must respect.
use vstd::prelude::*;

use crate::paths::{
    components, file_name, path_components, path_file_name, path_starts_with, render_path,
    strip_path_prefix, strip_prefix, is_absolute, has_parent_component, join_path, join_paths,
    path_has_prefix, is_absolute_path,
};
use crate::order::{
    bytes_le, lemma_bytes_le_antisymmetric, lemma_bytes_le_reflexive, lemma_bytes_le_total,
    lemma_bytes_le_transitive,
};
use crate::schema::strings_view;
use crate::sort::{is_sorted, lemma_sorted_by, lemma_sorted_by_map, lemma_sorted_by_permutes, sorted_by, total_preorder};
use vstd::utf8::encode_utf8;
use crate::text::{
    ascii_lower, copy_string, lower_ends_with, lower_equals, lower_starts_with, owned, same_text,
};
use crate::wire::{InlineFile, VerificationSource};

verus! {

broadcast use vstd::string::group_string_axioms;

/// The most files a snapshot may hold.
pub const MAX_SNAPSHOT_FILES: usize = 256;

/// The largest file a snapshot may hold, in bytes.
pub const MAX_FILE_BYTES: u64 = 512 * 1024;

/// The largest total size of a snapshot, in bytes.
pub const MAX_SNAPSHOT_BYTES: u64 = 5 * 1024 * 1024;

/// Declares `std::io::Error`, which an I/O failure carries.
#[verifier::external_type_specification]
#[verifier::external_body]
pub struct ExIoError(std::io::Error);

/// Why a snapshot could not be made.
#[derive(Debug)]
pub enum SnapshotError {
    EmptySnapshot,
    RootNotDirectory(String),
    InvalidPath(String),
    OutsideRoot(String),
    Symlink(String),
    NotRegularFile(String),
    Excluded(String),
    NonUtf8Path(String),
    NonUtf8(String),
    TooManyFiles { count: usize, limit: usize },
    FileTooLarge { path: String, size: u64, limit: u64 },
    SnapshotTooLarge { size: u64, limit: u64 },
    Walk(String),
    InvalidMapping { path: String, detail: String },
    Io { path: String, source: std::io::Error },
}

/// The mathematical model of a [`SnapshotError`]; an I/O failure is told
/// by its path.
pub enum SnapshotErrorView {
    EmptySnapshot,
    RootNotDirectory(Seq<char>),
    InvalidPath(Seq<char>),
    OutsideRoot(Seq<char>),
    Symlink(Seq<char>),
    NotRegularFile(Seq<char>),
    Excluded(Seq<char>),
    NonUtf8Path(Seq<char>),
    NonUtf8(Seq<char>),
    TooManyFiles { count: nat, limit: nat },
    FileTooLarge { path: Seq<char>, size: nat, limit: nat },
    SnapshotTooLarge { size: nat, limit: nat },
    Walk(Seq<char>),
    InvalidMapping { path: Seq<char>, detail: Seq<char> },
    Io(Seq<char>),
}

impl View for SnapshotError {
    type V = SnapshotErrorView;

    open spec fn view(&self) -> SnapshotErrorView {
        match self {
            SnapshotError::EmptySnapshot => SnapshotErrorView::EmptySnapshot,
            SnapshotError::RootNotDirectory(p) => SnapshotErrorView::RootNotDirectory(p@),
            SnapshotError::InvalidPath(p) => SnapshotErrorView::InvalidPath(p@),
            SnapshotError::OutsideRoot(p) => SnapshotErrorView::OutsideRoot(p@),
            SnapshotError::Symlink(p) => SnapshotErrorView::Symlink(p@),
            SnapshotError::NotRegularFile(p) => SnapshotErrorView::NotRegularFile(p@),
            SnapshotError::Excluded(p) => SnapshotErrorView::Excluded(p@),
            SnapshotError::NonUtf8Path(p) => SnapshotErrorView::NonUtf8Path(p@),
            SnapshotError::NonUtf8(p) => SnapshotErrorView::NonUtf8(p@),
            SnapshotError::TooManyFiles { count, limit } => SnapshotErrorView::TooManyFiles {
                count: *count as nat,
                limit: *limit as nat,
            },
            SnapshotError::FileTooLarge { path, size, limit } => SnapshotErrorView::FileTooLarge {
                path: path@,
                size: *size as nat,
                limit: *limit as nat,
            },
            SnapshotError::SnapshotTooLarge { size, limit } => SnapshotErrorView::SnapshotTooLarge {
                size: *size as nat,
                limit: *limit as nat,
            },
            SnapshotError::Walk(d) => SnapshotErrorView::Walk(d@),
            SnapshotError::InvalidMapping { path, detail } => SnapshotErrorView::InvalidMapping {
                path: path@,
                detail: detail@,
            },
            SnapshotError::Io { path, source: _ } => SnapshotErrorView::Io(path@),
        }
    }
}

/// Directory and file names a snapshot never descends into or takes.
pub open spec fn excluded_name(n: Seq<char>) -> bool {
    n == ".git"@ || n == ".hg"@ || n == ".svn"@ || n == "target"@ || n == "node_modules"@ || n
        == "dist"@ || n == "build"@ || n == "out"@ || n == ".next"@ || n == ".turbo"@ || n
        == "coverage"@ || n == "__pycache__"@
}

/// Whether `path` lies under `root` with a component, below the root, that
/// names version-control data, dependencies or build output.
pub open spec fn excluded_component(root: Seq<char>, path: Seq<char>) -> bool {
    path_starts_with(path, root) && exists|k: int|
        components(root).len() <= k < components(path).len() && #[trigger] excluded_name(
            components(path)[k],
        )
}

/// A file name, folded to lowercase, that marks a secret.
pub open spec fn secret_name(lower: Seq<char>) -> bool {
    ||| lower == ".env"@
    ||| ".env."@.is_prefix_of(lower)
    ||| lower == "credentials.json"@
    ||| lower == "secrets.json"@
    ||| lower == "id_rsa"@
    ||| lower == "id_ed25519"@
    ||| ".pem"@.is_suffix_of(lower)
    ||| ".key"@.is_suffix_of(lower)
    ||| ".p12"@.is_suffix_of(lower)
    ||| ".pfx"@.is_suffix_of(lower)
}

/// Whether a path is a secret: its file name marks one, or it has no file
/// name to judge by.
pub open spec fn secret_file(path: Seq<char>) -> bool {
    match file_name(path) {
        Some(name) => secret_name(ascii_lower(name)),
        None => true,
    }
}

fn is_excluded_name(n: &str) -> (r: bool)
    ensures
        r == excluded_name(n@),
{
    same_text(n, ".git") || same_text(n, ".hg") || same_text(n, ".svn") || same_text(n, "target")
        || same_text(n, "node_modules") || same_text(n, "dist") || same_text(n, "build")
        || same_text(n, "out") || same_text(n, ".next") || same_text(n, ".turbo") || same_text(
        n,
        "coverage",
    ) || same_text(n, "__pycache__")
}

/// Whether `path` lies under `root` with a component, below the root, that
/// names version-control data (`.git`, `.hg`, `.svn`), dependencies
/// (`node_modules`) or build output (`target`, `dist`, `build`, `out`,
/// `.next`, `.turbo`, `coverage`, `__pycache__`).
pub fn is_excluded_component(root: &str, path: &str) -> (r: bool)
    ensures
        r == excluded_component(root@, path@),
{
    let pc = path_components(path);
    let rc = path_components(root);
    if !crate::paths::starts_with_components(&pc, &rc) {
        return false;
    }
    let mut k: usize = rc.len();
    while k < pc.len()
        invariant
            rc@.len() <= k <= pc@.len(),
            strings_view(pc@) == components(path@),
            strings_view(rc@) == components(root@),
            path_starts_with(path@, root@),
            forall|j: int| rc@.len() <= j < k ==> !#[trigger] excluded_name(components(path@)[j]),
        decreases pc.len() - k,
    {
        assert(components(path@)[k as int] == pc@[k as int]@);
        if is_excluded_name(pc[k].as_str()) {
            assert(excluded_name(components(path@)[k as int]));
            return true;
        }
        k = k + 1;
    }
    false
}

/// Whether `path` is a secret that a snapshot never takes: `.env` and
/// `.env.*`, `credentials.json`, `secrets.json`, `id_rsa`, `id_ed25519`, and
/// `*.pem`, `*.key`, `*.p12`, `*.pfx` files, names compared without regard to
/// ASCII case; a path without a file name counts as one.
pub fn is_secret_file(path: &str) -> (r: bool)
    ensures
        r == secret_file(path@),
{
    let name = match path_file_name(path) {
        Some(n) => n,
        None => {
            return true;
        },
    };
    let n = name.as_str();
    lower_equals(n, ".env") || lower_starts_with(n, ".env.") || lower_equals(n, "credentials.json")
        || lower_equals(n, "secrets.json") || lower_equals(n, "id_rsa") || lower_equals(
        n,
        "id_ed25519",
    ) || lower_ends_with(n, ".pem") || lower_ends_with(n, ".key") || lower_ends_with(n, ".p12")
        || lower_ends_with(n, ".pfx")
}

/// Whether a workspace-relative path may be used: it must be non-empty,
/// relative, and free of `..` components.
pub open spec fn valid_relative(path: Seq<char>) -> bool {
    path.len() > 0 && !is_absolute(path) && !has_parent_component(path)
}

/// Checks a workspace-relative path: refused as invalid when it is empty,
/// absolute, or holds a `..` component.
pub fn validate_relative(path: &str) -> (r: Result<(), SnapshotError>)
    ensures
        r is Ok <==> valid_relative(path@),
        r matches Err(e) ==> e@ == SnapshotErrorView::InvalidPath(path@),
{
    if path.unicode_len() == 0 || is_absolute_path(path) {
        return Err(SnapshotError::InvalidPath(owned(path)));
    }
    if crate::root::has_parent(path) {
        return Err(SnapshotError::InvalidPath(owned(path)));
    }
    Ok(())
}

/// `path` relative to `root`, or refused as outside the root.
pub fn relative_path(root: &str, path: &str) -> (r: Result<String, SnapshotError>)
    ensures
        match strip_prefix(path@, root@) {
            Some(rel) => r matches Ok(x) && x@ == rel,
            None => r matches Err(e) && e@ == SnapshotErrorView::OutsideRoot(path@),
        },
{
    match strip_path_prefix(path, root) {
        Some(rel) => Ok(rel),
        None => Err(SnapshotError::OutsideRoot(owned(path))),
    }
}

/// Parts joined with slashes.
pub open spec fn slash_join(parts: Seq<Seq<char>>) -> Seq<char>
    decreases parts.len(),
{
    if parts.len() == 0 {
        Seq::empty()
    } else if parts.len() == 1 {
        parts[0]
    } else {
        slash_join(parts.drop_last()) + seq!['/'] + parts.last()
    }
}

/// How a file under `root` is named on the wire: its components below the
/// root joined with `/`.
pub open spec fn portable_path(root: Seq<char>, path: Seq<char>) -> Option<Seq<char>> {
    if path_starts_with(path, root) {
        Some(slash_join(components(path).skip(components(root).len() as int)))
    } else {
        None
    }
}

/// How the file `path` under `root` is named on the wire: its components
/// below the root joined with `/`; refused as outside the root otherwise.
pub fn portable_relative_path(root: &str, path: &str) -> (r: Result<String, SnapshotError>)
    ensures
        match portable_path(root@, path@) {
            Some(p) => r matches Ok(x) && x@ == p,
            None => r matches Err(e) && e@ == SnapshotErrorView::OutsideRoot(path@),
        },
{
    let pc = path_components(path);
    let rc = path_components(root);
    if !crate::paths::starts_with_components(&pc, &rc) {
        return Err(SnapshotError::OutsideRoot(owned(path)));
    }
    let ghost parts = strings_view(pc@).skip(rc@.len() as int);
    let mut out = String::new();
    let mut k: usize = rc.len();
    assert(parts.take(0) =~= Seq::<Seq<char>>::empty());
    proof {
        reveal_strlit("/");
    }
    while k < pc.len()
        invariant
            rc@.len() <= k <= pc@.len(),
            parts == strings_view(pc@).skip(rc@.len() as int),
            out@ == slash_join(parts.take(k - rc@.len())),
            "/"@ == seq!['/'],
        decreases pc.len() - k,
    {
        let ghost t = parts.take(k - rc@.len() + 1);
        assert(t.drop_last() =~= parts.take(k - rc@.len()));
        assert(t.last() == pc@[k as int]@);
        if k == rc.len() {
            assert(t =~= seq![pc@[k as int]@]);
            out = copy_string(&pc[k]);
        } else {
            out = crate::text::concat3(out.as_str(), "/", pc[k].as_str());
        }
        k = k + 1;
    }
    assert(parts.take(pc@.len() - rc@.len()) =~= parts);
    Ok(out)
}

/// Packs verification snapshots within limits on the number of files, the
/// size of each file and the total size.
#[derive(Clone, Debug)]
pub struct SnapshotPacker {
    max_files: usize,
    max_file_bytes: u64,
    max_total_bytes: u64,
}

impl SnapshotPacker {
    /// The most files a snapshot may hold.
    pub closed spec fn file_limit(&self) -> usize {
        self.max_files
    }

    /// The largest file a snapshot may hold.
    pub closed spec fn file_size_limit(&self) -> u64 {
        self.max_file_bytes
    }

    /// The largest total size of a snapshot.
    pub closed spec fn total_size_limit(&self) -> u64 {
        self.max_total_bytes
    }

    /// A packer with the given limits.
    /// The largest file a snapshot may hold.
    pub fn max_file_bytes(&self) -> (r: u64)
        ensures
            r == self.file_size_limit(),
    {
        self.max_file_bytes
    }

    pub fn with_limits(max_files: usize, max_file_bytes: u64, max_total_bytes: u64) -> (r: Self)
        ensures
            r.file_limit() == max_files,
            r.file_size_limit() == max_file_bytes,
            r.total_size_limit() == max_total_bytes,
    {
        SnapshotPacker { max_files, max_file_bytes, max_total_bytes }
    }
}

impl Default for SnapshotPacker {
    fn default() -> (r: Self)
        ensures
            r.file_limit() == MAX_SNAPSHOT_FILES,
            r.file_size_limit() == MAX_FILE_BYTES,
            r.total_size_limit() == MAX_SNAPSHOT_BYTES,
    {
        SnapshotPacker {
            max_files: MAX_SNAPSHOT_FILES,
            max_file_bytes: MAX_FILE_BYTES,
            max_total_bytes: MAX_SNAPSHOT_BYTES,
        }
    }
}

/// Whether two paths have the same components, as `Path` equality has it.
pub fn same_path(a: &str, b: &str) -> (r: bool)
    ensures
        r == (components(a@) == components(b@)),
{
    let ac = path_components(a);
    let bc = path_components(b);
    if ac.len() != bc.len() {
        return false;
    }
    let r = crate::paths::starts_with_components(&ac, &bc);
    proof {
        if r {
            assert(strings_view(ac@).subrange(0, strings_view(bc@).len() as int) =~= strings_view(ac@));
        }
    }
    r
}

/// Whether a workspace walk descends into, or looks at, `path`: the root
/// itself, and anything that is neither excluded nor a secret.
pub open spec fn descend_spec(root: Seq<char>, path: Seq<char>) -> bool {
    components(path) == components(root) || (!excluded_component(root, path) && !secret_file(path))
}

/// Whether a workspace walk descends into, or looks at, `path`.
pub fn should_descend(root: &str, path: &str) -> (r: bool)
    ensures
        r == descend_spec(root@, path@),
{
    if same_path(path, root) {
        return true;
    }
    !is_excluded_component(root, path) && !is_secret_file(path)
}

/// What a walk does with one entry below the root: a symbolic link stops
/// the snapshot, a regular file that is not a secret is taken.
pub open spec fn workspace_entry_spec(root: Seq<char>, path: Seq<char>, is_symlink: bool, is_file: bool) -> Result<
    bool,
    SnapshotErrorView,
> {
    if is_symlink {
        match strip_prefix(path, root) {
            Some(rel) => Err(SnapshotErrorView::Symlink(rel)),
            None => Err(SnapshotErrorView::OutsideRoot(path)),
        }
    } else {
        Ok(is_file && !secret_file(path))
    }
}

/// What a workspace walk does with the entry `path` below `root`: a
/// symbolic link is refused, a regular file that is not a secret is taken
/// (`Ok(true)`), anything else is passed over (`Ok(false)`).
pub fn workspace_entry(root: &str, path: &str, is_symlink: bool, is_file: bool) -> (r: Result<
    bool,
    SnapshotError,
>)
    ensures
        match workspace_entry_spec(root@, path@, is_symlink, is_file) {
            Ok(b) => r == Ok::<bool, SnapshotError>(b),
            Err(e) => r matches Err(x) && x@ == e,
        },
{
    if is_symlink {
        return match relative_path(root, path) {
            Ok(rel) => Err(SnapshotError::Symlink(rel)),
            Err(e) => Err(e),
        };
    }
    Ok(is_file && !is_secret_file(path))
}

/// Where cached verification results live; a snapshot leaves them out.
pub open spec fn cache_prefix() -> Seq<char> {
    ".forall/verify/cache"@
}

/// What collecting the `.forall` directory does with the entry `path`: the
/// verify cache is passed over, a symbolic link is refused, a regular file
/// that is not a secret is taken.
pub open spec fn forall_entry_spec(root: Seq<char>, path: Seq<char>, is_symlink: bool, is_file: bool) -> Result<
    bool,
    SnapshotErrorView,
> {
    match strip_prefix(path, root) {
        None => Err(SnapshotErrorView::OutsideRoot(path)),
        Some(rel) => if path_starts_with(rel, cache_prefix()) {
            Ok(false)
        } else if is_symlink {
            Err(SnapshotErrorView::Symlink(rel))
        } else {
            Ok(is_file && !secret_file(path))
        },
    }
}

/// What collecting the `.forall` directory does with the entry `path`.
pub fn forall_entry(root: &str, path: &str, is_symlink: bool, is_file: bool) -> (r: Result<
    bool,
    SnapshotError,
>)
    ensures
        match forall_entry_spec(root@, path@, is_symlink, is_file) {
            Ok(b) => r == Ok::<bool, SnapshotError>(b),
            Err(e) => r matches Err(x) && x@ == e,
        },
{
    let rel = match relative_path(root, path) {
        Ok(r) => r,
        Err(e) => {
            return Err(e);
        },
    };
    if crate::paths::path_has_prefix(rel.as_str(), ".forall/verify/cache") {
        return Ok(false);
    }
    if is_symlink {
        return Err(SnapshotError::Symlink(rel));
    }
    Ok(is_file && !is_secret_file(path))
}

/// The build manifests and lock files a verification snapshot takes from
/// the workspace root.
pub open spec fn support_names() -> Seq<Seq<char>> {
    seq![
        "package.json"@,
        "package-lock.json"@,
        "pnpm-lock.yaml"@,
        "yarn.lock"@,
        "bun.lock"@,
        "bun.lockb"@,
        "tsconfig.json"@,
        "Cargo.toml"@,
        "Cargo.lock"@,
        "rust-toolchain"@,
        "rust-toolchain.toml"@,
        "pom.xml"@,
        "build.gradle"@,
        "build.gradle.kts"@,
        "settings.gradle"@,
        "settings.gradle.kts"@,
        "gradle.properties"@,
    ]
}

/// The build manifests and lock files a verification snapshot takes from
/// the workspace root.
pub fn support_file_names() -> (r: Vec<String>)
    ensures
        strings_view(r@) == support_names(),
{
    let mut r: Vec<String> = Vec::new();
    r.push(owned("package.json"));
    r.push(owned("package-lock.json"));
    r.push(owned("pnpm-lock.yaml"));
    r.push(owned("yarn.lock"));
    r.push(owned("bun.lock"));
    r.push(owned("bun.lockb"));
    r.push(owned("tsconfig.json"));
    r.push(owned("Cargo.toml"));
    r.push(owned("Cargo.lock"));
    r.push(owned("rust-toolchain"));
    r.push(owned("rust-toolchain.toml"));
    r.push(owned("pom.xml"));
    r.push(owned("build.gradle"));
    r.push(owned("build.gradle.kts"));
    r.push(owned("settings.gradle"));
    r.push(owned("settings.gradle.kts"));
    r.push(owned("gradle.properties"));
    assert(strings_view(r@) =~= support_names());
    r
}

/// What collecting a root manifest does with `path`, given what its
/// metadata (not following links) says: `None` when it does not exist,
/// else whether it is a symbolic link and whether a regular file. A link is
/// refused; a regular file is taken.
pub open spec fn support_entry_spec(root: Seq<char>, path: Seq<char>, metadata: Option<(bool, bool)>) -> Result<
    bool,
    SnapshotErrorView,
> {
    match metadata {
        None => Ok(false),
        Some((is_symlink, is_file)) => if is_symlink {
            match strip_prefix(path, root) {
                Some(rel) => Err(SnapshotErrorView::Symlink(rel)),
                None => Err(SnapshotErrorView::OutsideRoot(path)),
            }
        } else {
            Ok(is_file)
        },
    }
}

/// What collecting a root manifest does with `path`.
pub fn support_entry(root: &str, path: &str, metadata: Option<(bool, bool)>) -> (r: Result<
    bool,
    SnapshotError,
>)
    ensures
        match support_entry_spec(root@, path@, metadata) {
            Ok(b) => r == Ok::<bool, SnapshotError>(b),
            Err(e) => r matches Err(x) && x@ == e,
        },
{
    match metadata {
        None => Ok(false),
        Some((is_symlink, is_file)) => if is_symlink {
            match relative_path(root, path) {
                Ok(rel) => Err(SnapshotError::Symlink(rel)),
                Err(e) => Err(e),
            }
        } else {
            Ok(is_file)
        },
    }
}

/// What collecting the root manifests gives, given the metadata of each
/// name of [`support_names`] in order: the paths of the regular files
/// among them, or the first link met.
pub open spec fn support_scan(
    root: Seq<char>,
    metadata: Seq<Result<Option<(bool, bool)>, SnapshotErrorView>>,
) -> Result<Seq<Seq<char>>, SnapshotErrorView>
    decreases metadata.len(),
{
    if metadata.len() == 0 {
        Ok(Seq::empty())
    } else {
        let n = metadata.len() - 1;
        match support_scan(root, metadata.drop_last()) {
            Err(e) => Err(e),
            Ok(found) => match metadata[n] {
                Err(e) => Err(e),
                Ok(m) => {
                    let path = join_path(root, support_names()[n]);
                    match support_entry_spec(root, path, m) {
                        Err(e) => Err(e),
                        Ok(true) => Ok(found.push(path)),
                        Ok(false) => Ok(found),
                    }
                },
            },
        }
    }
}

/// The views of what looking at each root manifest gave.
pub open spec fn support_metadata_view(v: Seq<Result<Option<(bool, bool)>, SnapshotError>>) -> Seq<
    Result<Option<(bool, bool)>, SnapshotErrorView>,
> {
    v.map_values(
        |m: Result<Option<(bool, bool)>, SnapshotError>|
            match m {
                Ok(x) => Ok(x),
                Err(e) => Err(e@),
            },
    )
}

/// Collects the root manifests, given what looking at each name of
/// [`support_file_names`] gave, in order (not following links: `None` when
/// it does not exist, else whether it is a symbolic link and whether a
/// regular file; or why it could not be looked at): the paths of those that
/// are regular files, or the first failure or symbolic link met.
pub fn collect_support_files(root: &str, metadata: Vec<Result<Option<(bool, bool)>, SnapshotError>>) -> (r: Result<
    Vec<String>,
    SnapshotError,
>)
    requires
        metadata@.len() == support_names().len(),
    ensures
        match support_scan(root@, support_metadata_view(metadata@)) {
            Ok(found) => r matches Ok(v) && strings_view(v@) == found,
            Err(e) => r matches Err(x) && x@ == e,
        },
{
    let ghost mv = support_metadata_view(metadata@);
    let names = support_file_names();
    let mut rest = metadata;
    let mut found: Vec<String> = Vec::new();
    let mut i: usize = 0;
    assert(mv.take(0) =~= Seq::<Result<Option<(bool, bool)>, SnapshotErrorView>>::empty());
    assert(strings_view(found@) =~= Seq::<Seq<char>>::empty());
    assert(support_metadata_view(rest@) =~= mv.skip(0));
    while i < names.len()
        invariant
            i <= names@.len(),
            strings_view(names@) == support_names(),
            mv.len() == support_names().len(),
            mv == support_metadata_view(metadata@),
            support_metadata_view(rest@) == mv.skip(i as int),
            rest@.len() == names@.len() - i,
            support_scan(root@, mv.take(i as int)) == Ok::<
                Seq<Seq<char>>,
                SnapshotErrorView,
            >(strings_view(found@)),
        decreases names.len() - i,
    {
        let ghost before_rest = rest@;
        let m = rest.remove(0);
        assert(support_metadata_view(rest@) =~= support_metadata_view(before_rest).drop_first());
        assert(mv.skip(i + 1) =~= mv.skip(i as int).drop_first());
        let ghost t = mv.take(i + 1);
        assert(t.drop_last() =~= mv.take(i as int));
        assert(t[i as int] == mv.skip(i as int)[0]);
        assert(names@[i as int]@ == support_names()[i as int]);
        let meta = match m {
            Err(e) => {
                proof {
                    assert(t[i as int] == Err::<Option<(bool, bool)>, SnapshotErrorView>(e@));
                    lemma_support_scan_err_extends(root@, mv, (i + 1) as int);
                }
                return Err(e);
            },
            Ok(x) => x,
        };
        assert(t[i as int] == Ok::<Option<(bool, bool)>, SnapshotErrorView>(meta));
        let path = join_paths(root, names[i].as_str());
        match support_entry(root, path.as_str(), meta) {
            Err(e) => {
                proof {
                    lemma_support_scan_err_extends(root@, mv, (i + 1) as int);
                }
                return Err(e);
            },
            Ok(take) => {
                if take {
                    let ghost before = strings_view(found@);
                    found.push(path);
                    assert(strings_view(found@) =~= before.push(join_path(root@, support_names()[i as int])));
                }
            },
        }
        i = i + 1;
    }
    assert(mv.take(names@.len() as int) =~= mv);
    Ok(found)
}

proof fn lemma_support_scan_err_extends(
    root: Seq<char>,
    metadata: Seq<Result<Option<(bool, bool)>, SnapshotErrorView>>,
    k: int,
)
    requires
        0 <= k <= metadata.len(),
        support_scan(root, metadata.take(k)) is Err,
    ensures
        support_scan(root, metadata) == support_scan(root, metadata.take(k)),
    decreases metadata.len() - k,
{
    if k < metadata.len() {
        assert(metadata.take(k + 1).drop_last() =~= metadata.take(k));
        lemma_support_scan_err_extends(root, metadata, k + 1);
    } else {
        assert(metadata.take(k) =~= metadata);
    }
}

/// The root of a workspace, given its canonical path and whether that is a
/// directory; refused unless it is one.
pub fn canonical_root(canonical: String, is_directory: bool) -> (r: Result<String, SnapshotError>)
    ensures
        is_directory ==> (r matches Ok(x) && x@ == canonical@),
        !is_directory ==> (r matches Err(e) && e@ == SnapshotErrorView::RootNotDirectory(
            canonical@,
        )),
{
    if !is_directory {
        return Err(SnapshotError::RootNotDirectory(canonical));
    }
    Ok(canonical)
}

/// The project's mapping, below the workspace root.
pub const PROJECT_MAPPING: &'static str = ".forall/verify/mapping.yaml";

/// The directory of change proposals, below the workspace root.
pub const CHANGES_DIRECTORY: &'static str = ".forall/workflow/changes";

/// The deepest a mapping delta lies below the changes directory.
pub const CHANGES_DEPTH: usize = 3;

/// Whether a file name is that of a change's mapping delta.
pub fn is_mapping_delta(name: &str) -> (r: bool)
    ensures
        r == (name@ == "mapping.delta.yaml"@),
{
    same_text(name, "mapping.delta.yaml")
}

/// A YAML document as collecting mapped files reads it: mappings (entries
/// in order), sequences, scalars that read as text, and anything else.
#[derive(Debug, PartialEq, Eq)]
pub enum YamlNode {
    Mapping(Vec<(YamlNode, YamlNode)>),
    Sequence(Vec<YamlNode>),
    Text(String),
    Other,
}

/// Whether a mapping entry names a file: its key is the text `file` and its
/// value is text.
pub open spec fn names_file(key: YamlNode, value: YamlNode) -> bool {
    key matches YamlNode::Text(k) && k@ == "file"@ && value is Text
}

/// Every `file` field of a YAML document, in document order: in a mapping,
/// each entry gives its own path when it names a file, then those of its
/// value; a sequence gives those of its items.
pub open spec fn file_fields(v: YamlNode) -> Seq<Seq<char>>
    decreases v,
{
    match v {
        YamlNode::Mapping(entries) => {
            proof {
                assert(decreases_to!(entries => entries@));
            }
            entry_file_fields(entries@)
        },
        YamlNode::Sequence(items) => {
            proof {
                assert(decreases_to!(items => items@));
            }
            item_file_fields(items@)
        },
        _ => Seq::empty(),
    }
}

/// The `file` fields of mapping entries, in order.
pub open spec fn entry_file_fields(entries: Seq<(YamlNode, YamlNode)>) -> Seq<Seq<char>>
    decreases entries,
{
    if entries.len() == 0 {
        Seq::empty()
    } else {
        let last = entries.last();
        proof {
            assert(decreases_to!(entries => entries[entries.len() - 1]));
        }
        let own = if names_file(last.0, last.1) {
            seq![last.1->Text_0@]
        } else {
            Seq::empty()
        };
        entry_file_fields(entries.drop_last()) + own + file_fields(last.1)
    }
}

/// The `file` fields of sequence items, in order.
pub open spec fn item_file_fields(items: Seq<YamlNode>) -> Seq<Seq<char>>
    decreases items,
{
    if items.len() == 0 {
        Seq::empty()
    } else {
        proof {
            assert(decreases_to!(items => items[items.len() - 1]));
        }
        item_file_fields(items.drop_last()) + file_fields(items.last())
    }
}

fn collect_file_fields(v: &YamlNode, out: &mut Vec<String>)
    ensures
        strings_view(final(out)@) == strings_view(old(out)@) + file_fields(*v),
    decreases v,
{
    let ghost start = strings_view(out@);
    match v {
        YamlNode::Mapping(entries) => {
            let mut i: usize = 0;
            assert(entries@.take(0) =~= Seq::<(YamlNode, YamlNode)>::empty());
            assert(start + entry_file_fields(entries@.take(0)) =~= start);
            while i < entries.len()
                invariant
                    i <= entries@.len(),
                    strings_view(out@) == start + entry_file_fields(entries@.take(i as int)),
                    (*v) is Mapping,
                    *entries == (*v)->Mapping_0,
                decreases entries.len() - i,
            {
                let ghost before = strings_view(out@);
                let ghost t = entries@.take(i + 1);
                assert(t.drop_last() =~= entries@.take(i as int));
                assert(t.last() == entries@[i as int]);
                let key = &entries[i].0;
                let value = &entries[i].1;
                let mut named = false;
                if let YamlNode::Text(k) = key {
                    if same_text(k.as_str(), "file") {
                        if let YamlNode::Text(p) = value {
                            out.push(copy_string(p));
                            named = true;
                        }
                    }
                }
                proof {
                    reveal_strlit("file");
                    assert(named == names_file(t.last().0, t.last().1));
                }
                let ghost mid = strings_view(out@);
                proof {
                    assert(decreases_to!(*v => (*v)->Mapping_0));
                    assert(*entries == (*v)->Mapping_0);
                    assert(decreases_to!(*entries => entries@));
                    assert(decreases_to!(entries@ => entries@[i as int]));
                    assert(decreases_to!(entries@[i as int] => entries@[i as int].1));
                    assert(*value == entries@[i as int].1);
                    assert(decreases_to!(*v => *value));
                }
                collect_file_fields(value, out);
                proof {
                    if named {
                        assert(mid =~= before.push(t.last().1->Text_0@));
                    } else {
                        assert(mid == before);
                    }
                    let own = if names_file(t.last().0, t.last().1) {
                        seq![t.last().1->Text_0@]
                    } else {
                        Seq::empty()
                    };
                    assert(entry_file_fields(t) == entry_file_fields(t.drop_last()) + own + file_fields(t.last().1));
                    assert(strings_view(out@) =~= start + entry_file_fields(t));
                }
                i = i + 1;
            }
            assert(entries@.take(entries@.len() as int) =~= entries@);
        },
        YamlNode::Sequence(items) => {
            let mut i: usize = 0;
            assert(items@.take(0) =~= Seq::<YamlNode>::empty());
            assert(start + item_file_fields(items@.take(0)) =~= start);
            while i < items.len()
                invariant
                    i <= items@.len(),
                    strings_view(out@) == start + item_file_fields(items@.take(i as int)),
                    (*v) is Sequence,
                    *items == (*v)->Sequence_0,
                decreases items.len() - i,
            {
                let ghost before = strings_view(out@);
                let ghost t = items@.take(i + 1);
                assert(t.drop_last() =~= items@.take(i as int));
                assert(t.last() == items@[i as int]);
                proof {
                    assert(decreases_to!(*v => (*v)->Sequence_0));
                    assert(*items == (*v)->Sequence_0);
                    assert(decreases_to!(*items => items@));
                    assert(decreases_to!(items@ => items@[i as int]));
                    assert(decreases_to!(*v => items@[i as int]));
                }
                collect_file_fields(&items[i], out);
                assert(strings_view(out@) =~= start + item_file_fields(t));
                i = i + 1;
            }
            assert(items@.take(items@.len() as int) =~= items@);
        },
        _ => {
            assert(strings_view(out@) =~= start + file_fields(*v));
        },
    }
}

/// Every `file` field of a YAML document, in document order: the paths a
/// mapping file links to.
pub fn mapping_file_fields(v: &YamlNode) -> (r: Vec<String>)
    ensures
        strings_view(r@) == file_fields(*v),
{
    let mut out: Vec<String> = Vec::new();
    assert(strings_view(out@) =~= Seq::<Seq<char>>::empty());
    collect_file_fields(v, &mut out);
    assert(Seq::<Seq<char>>::empty() + file_fields(*v) =~= file_fields(*v));
    out
}

/// Where the workspace-relative `relative` lies under `root`, once it is
/// known to be a valid relative path.
pub fn candidate_path(root: &str, relative: &str) -> (r: Result<String, SnapshotError>)
    ensures
        valid_relative(relative@) ==> (r matches Ok(x) && x@ == join_path(root@, relative@)),
        !valid_relative(relative@) ==> (r matches Err(e) && e@ == SnapshotErrorView::InvalidPath(
            relative@,
        )),
{
    match validate_relative(relative) {
        Err(e) => Err(e),
        Ok(()) => Ok(join_paths(root, relative)),
    }
}

/// Whether a selected file is taken, given its candidate path, the
/// canonical path it resolves to and whether that is a regular file: it
/// must stay under the root, be a regular file, and be neither a secret nor
/// excluded; the snapshot then holds its canonical path.
pub open spec fn select_spec(root: Seq<char>, candidate: Seq<char>, canonical: Seq<char>, is_file: bool) -> Result<
    Seq<char>,
    SnapshotErrorView,
> {
    if !path_starts_with(canonical, root) {
        Err(SnapshotErrorView::OutsideRoot(candidate))
    } else if !is_file {
        Err(SnapshotErrorView::NotRegularFile(canonical))
    } else if secret_file(canonical) || excluded_component(root, canonical) {
        match strip_prefix(canonical, root) {
            Some(rel) => Err(SnapshotErrorView::Excluded(rel)),
            None => Err(SnapshotErrorView::OutsideRoot(canonical)),
        }
    } else {
        Ok(canonical)
    }
}

/// Whether a selected file is taken, given its candidate path, the
/// canonical path it resolves to and whether that is a regular file.
pub fn select_canonical(root: &str, candidate: &str, canonical: &str, is_file: bool) -> (r: Result<
    String,
    SnapshotError,
>)
    ensures
        match select_spec(root@, candidate@, canonical@, is_file) {
            Ok(p) => r matches Ok(x) && x@ == p,
            Err(e) => r matches Err(x) && x@ == e,
        },
{
    if !path_has_prefix(canonical, root) {
        return Err(SnapshotError::OutsideRoot(owned(candidate)));
    }
    if !is_file {
        return Err(SnapshotError::NotRegularFile(owned(canonical)));
    }
    if is_secret_file(canonical) || is_excluded_component(root, canonical) {
        return match relative_path(root, canonical) {
            Ok(rel) => Err(SnapshotError::Excluded(rel)),
            Err(e) => Err(e),
        };
    }
    Ok(owned(canonical))
}

/// How `Path` orders components: the root, then `.`, then `..`, then
/// named components by their bytes.
pub open spec fn component_rank(c: Seq<char>) -> nat {
    if c == crate::paths::root_component() {
        0
    } else if c == crate::paths::current_component() {
        1
    } else if c == crate::paths::parent_component() {
        2
    } else {
        3
    }
}

/// Whether component `a` comes no later than component `b`.
pub open spec fn component_le(a: Seq<char>, b: Seq<char>) -> bool {
    component_rank(a) < component_rank(b) || (component_rank(a) == component_rank(b) && (
    component_rank(a) < 3 || bytes_le(encode_utf8(a), encode_utf8(b))))
}

/// Lexicographic order on component sequences, as `Path` compares paths.
pub open spec fn components_le(a: Seq<Seq<char>>, b: Seq<Seq<char>>) -> bool
    decreases a.len(),
{
    if a.len() == 0 {
        true
    } else if b.len() == 0 {
        false
    } else if a[0] == b[0] {
        components_le(a.drop_first(), b.drop_first())
    } else {
        component_le(a[0], b[0])
    }
}

/// Paths ordered as `Path` orders them.
pub open spec fn snapshot_path_le(a: Seq<char>, b: Seq<char>) -> bool {
    components_le(components(a), components(b))
}

/// `s` with each path whose components equal those of the path before it
/// left out.
pub open spec fn dedup_paths(s: Seq<Seq<char>>) -> Seq<Seq<char>>
    decreases s.len(),
{
    if s.len() <= 1 {
        s
    } else if components(s.last()) == components(s[s.len() - 2]) {
        dedup_paths(s.drop_last())
    } else {
        dedup_paths(s.drop_last()).push(s.last())
    }
}

/// The paths as a set of paths holds them: in path order, each path once
/// (the first of equal paths kept).
pub open spec fn path_set_spec(paths: Seq<Seq<char>>) -> Seq<Seq<char>> {
    dedup_paths(sorted_by(paths, |a: Seq<char>, b: Seq<char>| snapshot_path_le(a, b)))
}

fn component_rank_exec(c: &str) -> (r: u8)
    ensures
        r as nat == component_rank(c@),
{
    proof {
        reveal_strlit("/");
        reveal_strlit(".");
        reveal_strlit("..");
        assert("/"@ =~= crate::paths::root_component());
        assert("."@ =~= crate::paths::current_component());
        assert(".."@ =~= crate::paths::parent_component());
    }
    if same_text(c, "/") {
        0
    } else if same_text(c, ".") {
        1
    } else if same_text(c, "..") {
        2
    } else {
        3
    }
}

fn components_le_exec(a: &Vec<String>, b: &Vec<String>) -> (r: bool)
    ensures
        r == components_le(strings_view(a@), strings_view(b@)),
{
    let ghost av = strings_view(a@);
    let ghost bv = strings_view(b@);
    let mut i: usize = 0;
    assert(av.skip(0) =~= av);
    assert(bv.skip(0) =~= bv);
    while i < a.len() && i < b.len()
        invariant
            i <= a@.len(),
            i <= b@.len(),
            av == strings_view(a@),
            bv == strings_view(b@),
            components_le(av, bv) == components_le(av.skip(i as int), bv.skip(i as int)),
        decreases a.len() - i,
    {
        assert(av.skip(i as int)[0] == a@[i as int]@);
        assert(bv.skip(i as int)[0] == b@[i as int]@);
        if !same_text(a[i].as_str(), b[i].as_str()) {
            let ra = component_rank_exec(a[i].as_str());
            let rb = component_rank_exec(b[i].as_str());
            if ra != rb {
                return ra < rb;
            }
            if ra < 3 {
                return true;
            }
            return crate::order::text_le(a[i].as_str(), b[i].as_str());
        }
        assert(av.skip(i as int).drop_first() =~= av.skip(i + 1));
        assert(bv.skip(i as int).drop_first() =~= bv.skip(i + 1));
        i = i + 1;
    }
    i == a.len()
}

fn path_order(a: &String, b: &String) -> (r: bool)
    ensures
        r == snapshot_path_le(a@, b@),
{
    let ac = path_components(a.as_str());
    let bc = path_components(b.as_str());
    components_le_exec(&ac, &bc)
}

/// The paths as a set of paths holds them: in path order (component by
/// component, as `Path` orders them), each path once.
pub fn path_set(paths: Vec<String>) -> (r: Vec<String>)
    ensures
        strings_view(r@) == path_set_spec(strings_view(paths@)),
{
    let ghost unsorted = paths@;
    let sorted = crate::sort::sort_by(
        paths,
        path_order,
        Ghost(|a: String, b: String| snapshot_path_le(a@, b@)),
    );
    proof {
        crate::sort::lemma_sorted_by_map(
            unsorted,
            |s: String| s@,
            |a: String, b: String| snapshot_path_le(a@, b@),
            |a: Seq<char>, b: Seq<char>| snapshot_path_le(a, b),
        );
        assert(unsorted.map_values(|s: String| s@) =~= strings_view(unsorted));
    }
    let ghost sv = strings_view(sorted@);
    let mut out: Vec<String> = Vec::new();
    let mut k: usize = 0;
    assert(sv.take(0) =~= Seq::<Seq<char>>::empty());
    assert(strings_view(out@) =~= dedup_paths(sv.take(0)));
    while k < sorted.len()
        invariant
            k <= sorted@.len(),
            sv == strings_view(sorted@),
            strings_view(out@) == dedup_paths(sv.take(k as int)),
            k > 0 ==> out@.len() > 0 && components(out@.last()@) == components(sv[k - 1]),
        decreases sorted.len() - k,
    {
        let ghost before = strings_view(out@);
        let ghost t = sv.take(k + 1);
        assert(t.drop_last() =~= sv.take(k as int));
        assert(t.last() == sorted@[k as int]@);
        let n = out.len();
        if k > 0 && same_path(out[n - 1].as_str(), sorted[k].as_str()) {
            assert(t[t.len() - 2] == sv[k - 1]);
        } else {
            if k > 0 {
                assert(t[t.len() - 2] == sv[k - 1]);
            } else {
                assert(t =~= seq![sorted@[0]@]);
            }
            out.push(copy_string(&sorted[k]));
            assert(strings_view(out@) =~= before.push(sorted@[k as int]@));
        }
        k = k + 1;
    }
    assert(sv.take(sorted@.len() as int) =~= sv);
    out
}

proof fn lemma_component_le(a: Seq<char>, b: Seq<char>, c: Seq<char>)
    ensures
        component_le(a, a),
        component_le(a, b) || component_le(b, a),
        component_le(a, b) && component_le(b, c) ==> component_le(a, c),
        component_le(a, b) && component_le(b, a) ==> a == b,
{
    lemma_bytes_le_reflexive(encode_utf8(a));
    lemma_bytes_le_total(encode_utf8(a), encode_utf8(b));
    if bytes_le(encode_utf8(a), encode_utf8(b)) && bytes_le(encode_utf8(b), encode_utf8(c)) {
        lemma_bytes_le_transitive(encode_utf8(a), encode_utf8(b), encode_utf8(c));
    }
    if bytes_le(encode_utf8(a), encode_utf8(b)) && bytes_le(encode_utf8(b), encode_utf8(a)) {
        lemma_bytes_le_antisymmetric(encode_utf8(a), encode_utf8(b));
        vstd::utf8::encode_utf8_decode_utf8(a);
        vstd::utf8::encode_utf8_decode_utf8(b);
    }
}

proof fn lemma_components_le_reflexive(a: Seq<Seq<char>>)
    ensures
        components_le(a, a),
    decreases a.len(),
{
    if a.len() > 0 {
        lemma_components_le_reflexive(a.drop_first());
    }
}

proof fn lemma_components_le_total(a: Seq<Seq<char>>, b: Seq<Seq<char>>)
    ensures
        components_le(a, b) || components_le(b, a),
    decreases a.len(),
{
    if a.len() > 0 && b.len() > 0 {
        if a[0] == b[0] {
            lemma_components_le_total(a.drop_first(), b.drop_first());
        } else {
            lemma_component_le(a[0], b[0], b[0]);
        }
    }
}

proof fn lemma_components_le_antisymmetric(a: Seq<Seq<char>>, b: Seq<Seq<char>>)
    requires
        components_le(a, b),
        components_le(b, a),
    ensures
        a == b,
    decreases a.len(),
{
    if a.len() > 0 && b.len() > 0 {
        if a[0] == b[0] {
            lemma_components_le_antisymmetric(a.drop_first(), b.drop_first());
            assert(a =~= seq![a[0]] + a.drop_first());
            assert(b =~= seq![b[0]] + b.drop_first());
        } else {
            lemma_component_le(a[0], b[0], b[0]);
        }
    } else {
        assert(a =~= b);
    }
}

proof fn lemma_components_le_transitive(a: Seq<Seq<char>>, b: Seq<Seq<char>>, c: Seq<Seq<char>>)
    requires
        components_le(a, b),
        components_le(b, c),
    ensures
        components_le(a, c),
    decreases a.len(),
{
    if a.len() > 0 && b.len() > 0 && c.len() > 0 {
        if a[0] == b[0] && b[0] == c[0] {
            lemma_components_le_transitive(a.drop_first(), b.drop_first(), c.drop_first());
        } else {
            lemma_component_le(a[0], b[0], c[0]);
        }
    }
}

proof fn lemma_snapshot_path_le_total_preorder()
    ensures
        total_preorder(|a: Seq<char>, b: Seq<char>| snapshot_path_le(a, b)),
{
    let le = |a: Seq<char>, b: Seq<char>| snapshot_path_le(a, b);
    assert forall|a: Seq<char>, b: Seq<char>| #[trigger] le(a, b) || le(b, a) by {
        lemma_components_le_total(components(a), components(b));
    }
    assert forall|a: Seq<char>, b: Seq<char>, c: Seq<char>| #[trigger] le(a, b) && #[trigger] le(
        b,
        c,
    ) implies le(a, c) by {
        lemma_components_le_transitive(components(a), components(b), components(c));
    }
}

/// `s` with each element whose key equals that of the element before it
/// left out.
pub open spec fn dedup_by<T, K>(s: Seq<T>, key: spec_fn(T) -> K) -> Seq<T>
    decreases s.len(),
{
    if s.len() <= 1 {
        s
    } else if key(s.last()) == key(s[s.len() - 2]) {
        dedup_by(s.drop_last(), key)
    } else {
        dedup_by(s.drop_last(), key).push(s.last())
    }
}

proof fn lemma_dedup_paths_by(s: Seq<Seq<char>>)
    ensures
        dedup_paths(s) == dedup_by(s, |p: Seq<char>| components(p)),
    decreases s.len(),
{
    if s.len() > 1 {
        lemma_dedup_paths_by(s.drop_last());
    }
}

/// Whether `le` orders by `key`: it is transitive, holds between elements
/// of equal keys, and holds both ways only between them.
#[verifier::opaque]
spec fn orders_by_key<T, K>(le: spec_fn(T, T) -> bool, key: spec_fn(T) -> K) -> bool {
    &&& forall|a: T, b: T, c: T| #[trigger] le(a, b) && #[trigger] le(b, c) ==> le(a, c)
    &&& forall|a: T, b: T| key(a) == key(b) ==> #[trigger] le(a, b)
    &&& forall|a: T, b: T| #[trigger] le(a, b) && le(b, a) ==> key(a) == key(b)
}

proof fn lemma_dedup_by_from<T, K>(s: Seq<T>, key: spec_fn(T) -> K)
    ensures
        forall|k: int|
            0 <= k < dedup_by(s, key).len() ==> exists|m: int|
                0 <= m < s.len() && #[trigger] dedup_by(s, key)[k] == s[m],
    decreases s.len(),
{
    if s.len() > 1 {
        let d = s.drop_last();
        lemma_dedup_by_from(d, key);
        let dd = dedup_by(d, key);
        let r = dedup_by(s, key);
        if key(s.last()) == key(s[s.len() - 2]) {
            assert(r == dd);
        } else {
            assert(r == dd.push(s.last()));
        }
        assert forall|k: int| 0 <= k < r.len() implies exists|m: int|
            0 <= m < s.len() && #[trigger] r[k] == s[m] by {
            if k < dd.len() {
                let m = choose|m: int| 0 <= m < d.len() && #[trigger] dd[k] == d[m];
                assert(s[m] == d[m]);
                assert(r[k] == dd[k]);
            } else {
                assert(r[k] == s[s.len() - 1]);
            }
        }
    } else {
        assert(dedup_by(s, key) =~= s);
        if s.len() == 1 {
            assert(dedup_by(s, key)[0] == s[0]);
            assert(exists|m: int| 0 <= m < s.len() && dedup_by(s, key)[0] == s[m]);
        }
    }
}

proof fn lemma_dedup_by_covers<T, K>(s: Seq<T>, key: spec_fn(T) -> K)
    ensures
        forall|m: int|
            0 <= m < s.len() ==> exists|k: int|
                0 <= k < dedup_by(s, key).len() && key(dedup_by(s, key)[k]) == key(#[trigger] s[m]),
        s.len() > 0 ==> dedup_by(s, key).len() > 0 && key(dedup_by(s, key).last()) == key(s.last()),
    decreases s.len(),
{
    if s.len() == 1 {
        assert(dedup_by(s, key)[0] == s[0]);
    } else if s.len() > 1 {
        let n = s.len() - 1;
        let d = s.drop_last();
        lemma_dedup_by_covers(d, key);
        let dd = dedup_by(d, key);
        let r = dedup_by(s, key);
        assert(s[n - 1] == d.last());
        assert forall|m: int| 0 <= m < s.len() implies exists|k: int|
            0 <= k < r.len() && key(r[k]) == key(#[trigger] s[m]) by {
            if m < n {
                assert(s[m] == d[m]);
                let k = choose|k: int| 0 <= k < dd.len() && key(dd[k]) == key(#[trigger] d[m]);
                assert(r[k] == dd[k]);
            } else if key(s.last()) == key(s[n - 1]) {
                assert(key(r[dd.len() - 1]) == key(s[m]));
            } else {
                assert(r[dd.len() as int] == s[m]);
            }
        }
    }
}

proof fn lemma_dedup_by_sorted<T, K>(s: Seq<T>, key: spec_fn(T) -> K, le: spec_fn(T, T) -> bool)
    requires
        is_sorted(s, le),
    ensures
        is_sorted(dedup_by(s, key), le),
    decreases s.len(),
{
    if s.len() > 1 {
        let n = s.len() - 1;
        let d = s.drop_last();
        assert forall|i: int, j: int| 0 <= i < j < d.len() implies #[trigger] le(d[i], d[j]) by {
            assert(le(s[i], s[j]));
        }
        lemma_dedup_by_sorted(d, key, le);
        lemma_dedup_by_from(d, key);
        let dd = dedup_by(d, key);
        let r = dedup_by(s, key);
        if key(s.last()) != key(s[n - 1]) {
            assert forall|i: int, j: int| 0 <= i < j < r.len() implies #[trigger] le(r[i], r[j]) by {
                if j == dd.len() {
                    let m = choose|m: int| 0 <= m < d.len() && #[trigger] dd[i] == d[m];
                    assert(s[m] == d[m]);
                    assert(le(s[m], s[n]));
                } else {
                    assert(le(dd[i], dd[j]));
                }
            }
        }
    }
}

proof fn lemma_dedup_by_distinct<T, K>(s: Seq<T>, key: spec_fn(T) -> K, le: spec_fn(T, T) -> bool)
    requires
        is_sorted(s, le),
        orders_by_key(le, key),
    ensures
        forall|i: int, j: int|
            0 <= i < j < dedup_by(s, key).len() ==> key(#[trigger] dedup_by(s, key)[i]) != key(
                #[trigger] dedup_by(s, key)[j],
            ),
    decreases s.len(),
{
    if s.len() > 1 {
        let n = s.len() - 1;
        let d = s.drop_last();
        assert forall|i: int, j: int| 0 <= i < j < d.len() implies #[trigger] le(d[i], d[j]) by {
            assert(le(s[i], s[j]));
        }
        lemma_dedup_by_distinct(d, key, le);
        lemma_dedup_by_from(d, key);
        let dd = dedup_by(d, key);
        let r = dedup_by(s, key);
        if key(s.last()) != key(s[n - 1]) {
            assert(s[n - 1] == d.last());
            assert forall|k: int| 0 <= k < dd.len() implies key(#[trigger] dd[k]) != key(s.last()) by {
                let m = choose|m: int| 0 <= m < d.len() && #[trigger] dd[k] == d[m];
                assert(s[m] == d[m]);
                if key(s[m]) == key(s[n]) {
                    reveal(orders_by_key);
                    if m < n - 1 {
                        assert(le(s[m], s[n - 1]));
                    } else {
                        assert(le(s[m], s[m]));
                    }
                    assert(le(s[n - 1], s[n]));
                    assert(le(s[n], s[m]));
                    assert(le(s[n - 1], s[m]));
                    assert(key(s[m]) == key(s[n - 1]));
                }
            }
            assert forall|i: int, j: int| 0 <= i < j < r.len() implies key(#[trigger] r[i]) != key(
                #[trigger] r[j],
            ) by {
                if j == dd.len() {
                    assert(key(dd[i]) != key(s.last()));
                } else {
                    assert(r[i] == dd[i] && r[j] == dd[j]);
                }
            }
        }
    }
}

proof fn lemma_snapshot_path_le_orders_by_components()
    ensures
        orders_by_key(
            |a: Seq<char>, b: Seq<char>| snapshot_path_le(a, b),
            |p: Seq<char>| components(p),
        ),
{
    reveal(orders_by_key);
    let le = |a: Seq<char>, b: Seq<char>| snapshot_path_le(a, b);
    let key = |p: Seq<char>| components(p);
    assert forall|a: Seq<char>, b: Seq<char>, c: Seq<char>| #[trigger] le(a, b) && #[trigger] le(
        b,
        c,
    ) implies le(a, c) by {
        lemma_components_le_transitive(components(a), components(b), components(c));
    }
    assert forall|a: Seq<char>, b: Seq<char>| key(a) == key(b) implies #[trigger] le(a, b) by {
        lemma_components_le_reflexive(components(a));
    }
    assert forall|a: Seq<char>, b: Seq<char>| #[trigger] le(a, b) && le(b, a) implies key(a) == key(
        b,
    ) by {
        lemma_components_le_antisymmetric(components(a), components(b));
    }
}

/// The paths of a snapshot come in path order, no two of them name the
/// same file, each is one of the paths given, and every path given is
/// there.
pub proof fn lemma_path_set_is_ordered_and_distinct(paths: Seq<Seq<char>>)
    ensures
        is_sorted(path_set_spec(paths), |a: Seq<char>, b: Seq<char>| snapshot_path_le(a, b)),
        forall|i: int, j: int|
            0 <= i < j < path_set_spec(paths).len() ==> components(#[trigger] path_set_spec(paths)[i])
                != components(#[trigger] path_set_spec(paths)[j]),
        forall|k: int| 0 <= k < path_set_spec(paths).len() ==> paths.contains(#[trigger] path_set_spec(paths)[k]),
        forall|m: int|
            0 <= m < paths.len() ==> exists|k: int|
                0 <= k < path_set_spec(paths).len() && components(path_set_spec(paths)[k])
                    == components(#[trigger] paths[m]),
{
    broadcast use vstd::seq_lib::group_to_multiset_ensures;

    let le = |a: Seq<char>, b: Seq<char>| snapshot_path_le(a, b);
    let key = |p: Seq<char>| components(p);
    lemma_snapshot_path_le_total_preorder();
    lemma_snapshot_path_le_orders_by_components();
    lemma_sorted_by(paths, le);
    let sorted = sorted_by(paths, le);
    lemma_dedup_paths_by(sorted);
    lemma_dedup_by_from(sorted, key);
    lemma_dedup_by_covers(sorted, key);
    lemma_dedup_by_sorted(sorted, key, le);
    lemma_dedup_by_distinct(sorted, key, le);
    let r = path_set_spec(paths);
    assert(r == dedup_by(sorted, key));
    assert forall|i: int, j: int| 0 <= i < j < r.len() implies components(#[trigger] r[i])
        != components(#[trigger] r[j]) by {
        assert(key(r[i]) != key(r[j]));
    }
    assert forall|k: int| 0 <= k < r.len() implies paths.contains(#[trigger] r[k]) by {
        let m = choose|m: int| 0 <= m < sorted.len() && #[trigger] r[k] == sorted[m];
        assert(sorted.to_multiset().count(sorted[m]) > 0);
        assert(paths.to_multiset().count(sorted[m]) > 0);
    }
    assert forall|m: int| 0 <= m < paths.len() implies exists|k: int|
        0 <= k < r.len() && components(r[k]) == components(#[trigger] paths[m]) by {
        assert(paths.to_multiset().count(paths[m]) > 0);
        assert(sorted.to_multiset().count(paths[m]) > 0);
        assert(sorted.contains(paths[m]));
        let i = choose|i: int| 0 <= i < sorted.len() && sorted[i] == paths[m];
        let k = choose|k: int| 0 <= k < r.len() && key(r[k]) == key(#[trigger] sorted[i]);
        assert(components(r[k]) == components(paths[m]));
    }
}

/// What the file system says of a file to pack: whether it is a regular
/// file, and its length in bytes.
#[derive(Clone, Copy, Debug, PartialEq, Eq, Structural)]
pub struct FileMetadata {
    pub is_file: bool,
    pub len: u64,
}

/// A file to pack: its canonical path, its metadata (or why it could not be
/// read), and its content (or why it could not be read), which is needed
/// once the file passes the size checks.
#[derive(Debug)]
pub struct SnapshotFile {
    pub path: String,
    pub metadata: Result<FileMetadata, SnapshotError>,
    pub content: Option<Result<Vec<u8>, SnapshotError>>,
}

/// The mathematical model of a [`SnapshotFile`].
pub struct SnapshotFileView {
    pub path: Seq<char>,
    pub metadata: Result<FileMetadata, SnapshotErrorView>,
    pub content: Option<Result<Seq<u8>, SnapshotErrorView>>,
}

impl View for SnapshotFile {
    type V = SnapshotFileView;

    open spec fn view(&self) -> SnapshotFileView {
        SnapshotFileView {
            path: self.path@,
            metadata: match self.metadata {
                Ok(m) => Ok(m),
                Err(e) => Err(e@),
            },
            content: match self.content {
                Some(Ok(b)) => Some(Ok(b@)),
                Some(Err(e)) => Some(Err(e@)),
                None => None,
            },
        }
    }
}

/// The views of a list of files to pack.
pub open spec fn snapshot_files_view(v: Seq<SnapshotFile>) -> Seq<SnapshotFileView> {
    v.map_values(|f: SnapshotFile| f@)
}

/// The views of inline files: wire path and content.
pub open spec fn inline_view(v: Seq<InlineFile>) -> Seq<(Seq<char>, Seq<char>)> {
    v.map_values(|f: InlineFile| (f.path@, f.content@))
}

/// `a + b`, or the largest `u64` when that does not fit.
pub open spec fn saturating_sum(a: nat, b: nat) -> nat {
    if a + b > u64::MAX {
        u64::MAX as nat
    } else {
        a + b
    }
}

/// Packing the files in order: each must be a regular file within the size
/// limit, the running total must stay within its limit, and each must hold
/// UTF-8; the files come out with their wire paths.
pub open spec fn pack_scan(
    root: Seq<char>,
    max_file: nat,
    max_total: nat,
    files: Seq<SnapshotFileView>,
) -> Result<(Seq<(Seq<char>, Seq<char>)>, nat), SnapshotErrorView>
    decreases files.len(),
{
    if files.len() == 0 {
        Ok((Seq::empty(), 0))
    } else {
        match pack_scan(root, max_file, max_total, files.drop_last()) {
            Err(e) => Err(e),
            Ok((out, total)) => {
                let f = files.last();
                match f.metadata {
                    Err(e) => Err(e),
                    Ok(m) => if !m.is_file {
                        Err(SnapshotErrorView::NotRegularFile(f.path))
                    } else if m.len > max_file {
                        match strip_prefix(f.path, root) {
                            Some(rel) => Err(
                                SnapshotErrorView::FileTooLarge {
                                    path: rel,
                                    size: m.len as nat,
                                    limit: max_file,
                                },
                            ),
                            None => Err(SnapshotErrorView::OutsideRoot(f.path)),
                        }
                    } else {
                        let t = saturating_sum(total, m.len as nat);
                        if t > max_total {
                            Err(SnapshotErrorView::SnapshotTooLarge { size: t, limit: max_total })
                        } else {
                            match f.content {
                                None => Err(SnapshotErrorView::NotRegularFile(f.path)),
                                Some(Err(e)) => Err(e),
                                Some(Ok(b)) => match strip_prefix(f.path, root) {
                                    None => Err(SnapshotErrorView::OutsideRoot(f.path)),
                                    Some(rel) => if !vstd::utf8::valid_utf8(b) {
                                        Err(SnapshotErrorView::NonUtf8(rel))
                                    } else {
                                        match portable_path(root, f.path) {
                                            None => Err(SnapshotErrorView::OutsideRoot(f.path)),
                                            Some(p) => Ok(
                                                (out.push((p, vstd::utf8::decode_utf8(b))), t),
                                            ),
                                        }
                                    },
                                },
                            }
                        }
                    },
                }
            },
        }
    }
}

/// What packing the files gives: refused when there are none or too many,
/// else the files in order with their wire paths and contents.
pub open spec fn pack_spec(
    root: Seq<char>,
    max_files: nat,
    max_file: nat,
    max_total: nat,
    files: Seq<SnapshotFileView>,
) -> Result<Seq<(Seq<char>, Seq<char>)>, SnapshotErrorView> {
    if files.len() == 0 {
        Err(SnapshotErrorView::EmptySnapshot)
    } else if files.len() > max_files {
        Err(SnapshotErrorView::TooManyFiles { count: files.len(), limit: max_files })
    } else {
        match pack_scan(root, max_file, max_total, files) {
            Err(e) => Err(e),
            Ok((out, _)) => Ok(out),
        }
    }
}

proof fn lemma_pack_scan_err_extends(
    root: Seq<char>,
    max_file: nat,
    max_total: nat,
    files: Seq<SnapshotFileView>,
    k: int,
)
    requires
        0 <= k <= files.len(),
        pack_scan(root, max_file, max_total, files.take(k)) is Err,
    ensures
        pack_scan(root, max_file, max_total, files) == pack_scan(root, max_file, max_total, files.take(k)),
    decreases files.len() - k,
{
    if k < files.len() {
        assert(files.take(k + 1).drop_last() =~= files.take(k));
        lemma_pack_scan_err_extends(root, max_file, max_total, files, k + 1);
    } else {
        assert(files.take(k) =~= files);
    }
}

/// Whether a file that passes the per-file checks under the size limit
/// `limit` comes with its content (or why it could not be read).
pub open spec fn content_needed_is_read(f: SnapshotFileView, limit: u64) -> bool {
    (f.metadata matches Ok(m) && m.is_file && m.len <= limit) ==> f.content is Some
}

/// The files collected for a snapshot as a set of paths holds them: in
/// path order, each path once, the first of equal paths kept.
pub open spec fn collected_files(files: Seq<SnapshotFileView>) -> Seq<SnapshotFileView> {
    dedup_by(
        sorted_by(files, |a: SnapshotFileView, b: SnapshotFileView| snapshot_path_le(a.path, b.path)),
        |f: SnapshotFileView| components(f.path),
    )
}

fn file_order(a: &SnapshotFile, b: &SnapshotFile) -> (r: bool)
    ensures
        r == snapshot_path_le(a.path@, b.path@),
{
    path_order(&a.path, &b.path)
}

impl SnapshotPacker {
    /// Packs the files, given in the order a set of paths holds them (see
    /// [`path_set`]), into an inline source: refused when there is none or
    /// more than the file limit; each file must be a regular file no larger
    /// than the file limit, the running total no larger than the total
    /// limit, and the content UTF-8. Each file is named on the wire by its
    /// path below `root`, joined with `/`.
    pub fn pack_files(&self, root: &str, files: Vec<SnapshotFile>) -> (r: Result<
        VerificationSource,
        SnapshotError,
    >)
        requires
            forall|i: int|
                0 <= i < files@.len() && files@.len() <= self.file_limit() ==> (
                #[trigger] files@[i].metadata matches Ok(m) && m.is_file && m.len
                    <= self.file_size_limit() ==> files@[i].content is Some),
        ensures
            match pack_spec(
                root@,
                self.file_limit() as nat,
                self.file_size_limit() as nat,
                self.total_size_limit() as nat,
                snapshot_files_view(files@),
            ) {
                Err(e) => r matches Err(x) && x@ == e,
                Ok(out) => r matches Ok(VerificationSource::Inline { files: fs }) && inline_view(fs@)
                    == out,
            },
    {
        let ghost fv = snapshot_files_view(files@);
        if files.len() == 0 {
            return Err(SnapshotError::EmptySnapshot);
        }
        if files.len() > self.max_files {
            return Err(SnapshotError::TooManyFiles { count: files.len(), limit: self.max_files });
        }
        let n = files.len();
        let mut rest = files;
        let mut out: Vec<InlineFile> = Vec::new();
        let mut total: u64 = 0;
        let mut k: usize = 0;
        assert(fv.take(0) =~= Seq::<SnapshotFileView>::empty());
        assert(inline_view(out@) =~= Seq::<(Seq<char>, Seq<char>)>::empty());
        assert(rest@.skip(0) =~= rest@);
        let ghost orig = rest@;
        while k < n
            invariant
                k <= n,
                n == orig.len(),
                n > 0,
                n <= self.max_files,
                fv == snapshot_files_view(orig),
                orig == files@,
                rest@ == orig.skip(k as int),
                forall|i: int|
                    0 <= i < orig.len() ==> (#[trigger] orig[i].metadata matches Ok(m) && m.is_file
                        && m.len <= self.max_file_bytes ==> orig[i].content is Some),
                pack_scan(root@, self.max_file_bytes as nat, self.max_total_bytes as nat, fv.take(k as int))
                    == Ok::<(Seq<(Seq<char>, Seq<char>)>, nat), SnapshotErrorView>(
                    (inline_view(out@), total as nat),
                ),
            decreases n - k,
        {
            let f = rest.remove(0);
            assert(orig.skip(k + 1) =~= orig.skip(k as int).drop_first());
            assert(f == orig[k as int]);
            let ghost fk = fv.take(k + 1);
            assert(fk.drop_last() =~= fv.take(k as int));
            assert(fk.last() == f@);
            let SnapshotFile { path, metadata, content } = f;
            let m = match metadata {
                Err(e) => {
                    proof {
                        assert(fk.last().metadata == Err::<FileMetadata, SnapshotErrorView>(e@));
                        assert(pack_scan(root@, self.max_file_bytes as nat, self.max_total_bytes as nat, fk)
                            == Err::<(Seq<(Seq<char>, Seq<char>)>, nat), SnapshotErrorView>(e@));
                        lemma_pack_scan_err_extends(root@, self.max_file_bytes as nat, self.max_total_bytes as nat, fv, (k + 1) as int);
                    }
                    return Err(e);
                },
                Ok(m) => m,
            };
            if !m.is_file {
                proof {
                    lemma_pack_scan_err_extends(root@, self.max_file_bytes as nat, self.max_total_bytes as nat, fv, (k + 1) as int);
                }
                return Err(SnapshotError::NotRegularFile(path));
            }
            if m.len > self.max_file_bytes {
                proof {
                    lemma_pack_scan_err_extends(root@, self.max_file_bytes as nat, self.max_total_bytes as nat, fv, (k + 1) as int);
                }
                return match relative_path(root, path.as_str()) {
                    Ok(rel) => Err(
                        SnapshotError::FileTooLarge { path: rel, size: m.len, limit: self.max_file_bytes },
                    ),
                    Err(e) => Err(e),
                };
            }
            total = total.saturating_add(m.len);
            if total > self.max_total_bytes {
                proof {
                    lemma_pack_scan_err_extends(root@, self.max_file_bytes as nat, self.max_total_bytes as nat, fv, (k + 1) as int);
                }
                return Err(SnapshotError::SnapshotTooLarge { size: total, limit: self.max_total_bytes });
            }
            let bytes = match content {
                None => {
                    proof {
                        lemma_pack_scan_err_extends(root@, self.max_file_bytes as nat, self.max_total_bytes as nat, fv, (k + 1) as int);
                    }
                    return Err(SnapshotError::NotRegularFile(path));
                },
                Some(Err(e)) => {
                    proof {
                        lemma_pack_scan_err_extends(root@, self.max_file_bytes as nat, self.max_total_bytes as nat, fv, (k + 1) as int);
                    }
                    return Err(e);
                },
                Some(Ok(b)) => b,
            };
            let rel = match relative_path(root, path.as_str()) {
                Ok(rel) => rel,
                Err(e) => {
                    proof {
                        lemma_pack_scan_err_extends(root@, self.max_file_bytes as nat, self.max_total_bytes as nat, fv, (k + 1) as int);
                    }
                    return Err(e);
                },
            };
            let ghost bv = bytes@;
            let text = match crate::text::utf8_text(bytes) {
                Some(t) => t,
                None => {
                    proof {
                        lemma_pack_scan_err_extends(root@, self.max_file_bytes as nat, self.max_total_bytes as nat, fv, (k + 1) as int);
                    }
                    return Err(SnapshotError::NonUtf8(rel));
                },
            };
            proof {
                vstd::utf8::encode_utf8_decode_utf8(text@);
            }
            let wire = match portable_relative_path(root, path.as_str()) {
                Ok(p) => p,
                Err(e) => {
                    proof {
                        lemma_pack_scan_err_extends(root@, self.max_file_bytes as nat, self.max_total_bytes as nat, fv, (k + 1) as int);
                    }
                    return Err(e);
                },
            };
            let ghost before = inline_view(out@);
            let ghost entry = (wire@, text@);
            out.push(InlineFile { path: wire, content: text });
            assert(inline_view(out@) =~= before.push(entry));
            k = k + 1;
        }
        assert(fv.take(n as int) =~= fv);
        Ok(VerificationSource::Inline { files: out })
    }

    /// Packs the files collected from a workspace, in any order and possibly
    /// more than once: they are put in path order, each path once (the
    /// first of equal paths kept), as a set of paths holds them, and packed
    /// as [`SnapshotPacker::pack_files`] packs them.
    pub fn pack_verification_workspace(&self, root: &str, files: Vec<SnapshotFile>) -> (r: Result<
        VerificationSource,
        SnapshotError,
    >)
        requires
            forall|i: int|
                0 <= i < files@.len() ==> content_needed_is_read(
                    #[trigger] files@[i]@,
                    self.file_size_limit(),
                ),
        ensures
            match pack_spec(
                root@,
                self.file_limit() as nat,
                self.file_size_limit() as nat,
                self.total_size_limit() as nat,
                collected_files(snapshot_files_view(files@)),
            ) {
                Ok(out) => r matches Ok(VerificationSource::Inline { files: v }) && inline_view(v@)
                    == out,
                Err(e) => r matches Err(x) && x@ == e,
            },
    {
        let ghost orig = files@;
        let ghost le_exec = |a: SnapshotFile, b: SnapshotFile| snapshot_path_le(a.path@, b.path@);
        let ghost le_view = |a: SnapshotFileView, b: SnapshotFileView| snapshot_path_le(a.path, b.path);
        let sorted = crate::sort::sort_by(files, file_order, Ghost(le_exec));
        proof {
            lemma_sorted_by_map(orig, |f: SnapshotFile| f@, le_exec, le_view);
            assert(orig.map_values(|f: SnapshotFile| f@) =~= snapshot_files_view(orig));
            lemma_sorted_by_permutes(orig, le_exec);
            assert forall|i: int| 0 <= i < sorted@.len() implies content_needed_is_read(
                #[trigger] sorted@[i]@,
                self.file_size_limit(),
            ) by {
                broadcast use vstd::seq_lib::group_to_multiset_ensures;

                assert(sorted@.to_multiset().count(sorted@[i]) > 0);
                assert(orig.to_multiset().count(sorted@[i]) > 0);
                let j = choose|j: int| 0 <= j < orig.len() && orig[j] == sorted@[i];
            }
        }
        let ghost sv = snapshot_files_view(sorted@);
        let ghost key = |f: SnapshotFileView| components(f.path);
        assert(sv == sorted_by(snapshot_files_view(orig), le_view));
        let mut rest = sorted;
        let mut out: Vec<SnapshotFile> = Vec::new();
        let n = rest.len();
        let mut k: usize = 0;
        assert(sv.take(0) =~= Seq::<SnapshotFileView>::empty());
        assert(snapshot_files_view(out@) =~= dedup_by(sv.take(0), key));
        assert(sv.skip(0) =~= sv);
        while k < n
            invariant
                k <= n,
                n == sv.len(),
                snapshot_files_view(rest@) == sv.skip(k as int),
                rest@.len() == n - k,
                snapshot_files_view(out@) == dedup_by(sv.take(k as int), key),
                k > 0 ==> out@.len() > 0 && components(out@.last().path@) == components(
                    sv[k - 1].path,
                ),
                forall|i: int| k <= i < n ==> content_needed_is_read(#[trigger] sv[i], self.file_size_limit()),
                forall|j: int|
                    0 <= j < out@.len() ==> content_needed_is_read(
                        #[trigger] out@[j]@,
                        self.file_size_limit(),
                    ),
                key == (|f: SnapshotFileView| components(f.path)),
            decreases n - k,
        {
            let ghost before_rest = rest@;
            let f = rest.remove(0);
            assert(snapshot_files_view(rest@) =~= snapshot_files_view(before_rest).drop_first());
            assert(sv.skip(k + 1) =~= sv.skip(k as int).drop_first());
            assert(f@ == sv.skip(k as int)[0]);
            assert(f@ == sv[k as int]);
            let ghost before = snapshot_files_view(out@);
            let ghost t = sv.take(k + 1);
            assert(t.drop_last() =~= sv.take(k as int));
            assert(t.last() == sv[k as int]);
            let len = out.len();
            if k > 0 && same_path(out[len - 1].path.as_str(), f.path.as_str()) {
                assert(t[t.len() - 2] == sv[k - 1]);
                assert(dedup_by(t, key) == dedup_by(t.drop_last(), key));
            } else {
                if k > 0 {
                    assert(t[t.len() - 2] == sv[k - 1]);
                    assert(dedup_by(t, key) == dedup_by(t.drop_last(), key).push(t.last()));
                } else {
                    assert(t =~= seq![sv[0]]);
                }
                out.push(f);
                assert(snapshot_files_view(out@) =~= before.push(sv[k as int]));
            }
            k = k + 1;
        }
        assert(sv.take(n as int) =~= sv);
        assert forall|j: int|
            0 <= j < out@.len() && out@.len() <= self.file_limit() implies (
            #[trigger] out@[j].metadata matches Ok(m) && m.is_file && m.len
                <= self.file_size_limit() ==> out@[j].content is Some) by {
            assert(content_needed_is_read(out@[j]@, self.file_size_limit()));
        }
        self.pack_files(root, out)
    }
}

/// A GitHub source: a repository at a reference, optionally below a
/// subdirectory.
pub fn github_source(repository: String, reference: String, subdirectory: Option<String>) -> (r:
    VerificationSource)
    ensures
        r matches VerificationSource::Github { repository: x, reference: y, subdirectory: z } && x
            == repository && y == reference && z == subdirectory,
{
    VerificationSource::github(repository, reference, subdirectory)
}

} // verus!
