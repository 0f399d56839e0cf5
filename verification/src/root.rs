//! The project root and the rules a project-relative path must follow to be
//! resolved under it.
use vstd::prelude::*;

use crate::errors::{error, path_error, AuthoringErrorCode, AuthoringErrorView, AuthoringResult};
use crate::paths::{
    components, has_parent_component, is_absolute, is_absolute_path, join_path, join_paths,
    lemma_join_stays_under, parent_component, path_components, path_has_prefix, path_starts_with,
};
use crate::text::{owned, same_text};

verus! {

broadcast use vstd::string::group_string_axioms;

/// The canonical path of a project directory.
#[derive(Debug, Clone, PartialEq, Eq)]
pub struct CanonicalRoot(String);

impl View for CanonicalRoot {
    type V = Seq<char>;

    closed spec fn view(&self) -> Seq<char> {
        self.0@
    }
}

/// Message for a path that is empty or absolute.
pub open spec fn not_relative_message() -> Seq<char> {
    "path must be a non-empty project-relative path"@
}

/// Message for a path that climbs out with `..`.
pub open spec fn traversal_message() -> Seq<char> {
    "path traversal is not allowed"@
}

/// Message for a path whose canonical form leaves the root.
pub open spec fn outside_root_message() -> Seq<char> {
    "path resolves outside the project root"@
}

/// Where `relative` lies under `root`, or why it is refused: it must be
/// non-empty, relative, and free of `..` components.
pub open spec fn resolve_spec(root: Seq<char>, relative: Seq<char>) -> Result<Seq<char>, AuthoringErrorView> {
    if relative.len() == 0 || is_absolute(relative) {
        Err(
            AuthoringErrorView {
                code: AuthoringErrorCode::UnsafePath,
                message: not_relative_message(),
                path: Some(relative),
            },
        )
    } else if has_parent_component(relative) {
        Err(
            AuthoringErrorView {
                code: AuthoringErrorCode::UnsafePath,
                message: traversal_message(),
                path: Some(relative),
            },
        )
    } else {
        Ok(join_path(root, relative))
    }
}

/// Whether a path has a `..` component.
pub fn has_parent(relative: &str) -> (r: bool)
    ensures
        r == has_parent_component(relative@),
{
    let cs = path_components(relative);
    let mut i: usize = 0;
    proof {
        reveal_strlit("..");
        assert(".."@ =~= crate::paths::parent_component());
    }
    while i < cs.len()
        invariant
            i <= cs@.len(),
            crate::schema::strings_view(cs@) == crate::paths::components(relative@),
            ".."@ == crate::paths::parent_component(),
            forall|j: int| 0 <= j < i ==> cs@[j]@ != crate::paths::parent_component(),
        decreases cs.len() - i,
    {
        if same_text(cs[i].as_str(), "..") {
            assert(crate::schema::strings_view(cs@)[i as int] == crate::paths::parent_component());
            assert(crate::paths::components(relative@).contains(crate::paths::parent_component()));
            return true;
        }
        i = i + 1;
    }
    proof {
        let v = crate::schema::strings_view(cs@);
        if v.contains(crate::paths::parent_component()) {
            let j = choose|j: int| 0 <= j < v.len() && v[j] == crate::paths::parent_component();
            assert(cs@[j]@ == v[j]);
        }
    }
    false
}

/// A path that `resolve` accepts lies under the root, and no component of
/// it below the root climbs back up with `..`.
pub proof fn lemma_resolved_path_stays_under_root(root: Seq<char>, relative: Seq<char>)
    requires
        root.len() > 0,
        resolve_spec(root, relative) is Ok,
    ensures
        path_starts_with(resolve_spec(root, relative)->Ok_0, root),
        !components(resolve_spec(root, relative)->Ok_0).skip(components(root).len() as int).contains(
            parent_component(),
        ),
{
    lemma_join_stays_under(root, relative);
    let below = components(join_path(root, relative)).skip(components(root).len() as int);
    if below.contains(parent_component()) {
        let k = choose|k: int| 0 <= k < below.len() && below[k] == parent_component();
        let pieces = crate::paths::split_slash(relative);
        let cs = components(relative);
        let lead = cs.len() - crate::paths::normal_pieces(pieces).len();
        assert(cs[lead + k] == below[k]);
    }
}

impl CanonicalRoot {
    /// The root at `canonical`, the canonical form of a path; refused
    /// unless it is a directory.
    pub fn new(canonical: String, is_directory: bool) -> (r: AuthoringResult<CanonicalRoot>)
        ensures
            is_directory ==> (r matches Ok(root) && root@ == canonical@),
            !is_directory ==> (r matches Err(e) && e@ == (AuthoringErrorView {
                code: AuthoringErrorCode::InvalidRoot,
                message: "project root must be a directory"@,
                path: None,
            })),
    {
        if !is_directory {
            return Err(error(AuthoringErrorCode::InvalidRoot, owned("project root must be a directory")));
        }
        Ok(CanonicalRoot(canonical))
    }

    /// The root's path.
    pub fn as_path(&self) -> (r: &str)
        ensures
            r@ == self@,
    {
        self.0.as_str()
    }

    /// Where `relative` lies under the root: refused when it is empty,
    /// absolute, or holds a `..` component.
    pub fn resolve(&self, relative: &str) -> (r: AuthoringResult<String>)
        ensures
            match resolve_spec(self@, relative@) {
                Ok(p) => r matches Ok(x) && x@ == p,
                Err(e) => r matches Err(x) && x@ == e,
            },
            r is Ok ==> relative@.len() > 0 && !is_absolute(relative@) && !has_parent_component(
                relative@,
            ),
    {
        if relative.unicode_len() == 0 || is_absolute_path(relative) {
            return Err(
                path_error(
                    AuthoringErrorCode::UnsafePath,
                    owned(relative),
                    owned("path must be a non-empty project-relative path"),
                ),
            );
        }
        if has_parent(relative) {
            return Err(
                path_error(
                    AuthoringErrorCode::UnsafePath,
                    owned(relative),
                    owned("path traversal is not allowed"),
                ),
            );
        }
        Ok(join_paths(self.0.as_str(), relative))
    }

    /// Checks that `canonical`, the canonical form of (an existing ancestor
    /// of) the path `relative` resolved to, stays under the root.
    pub fn confine(&self, relative: &str, canonical: &str) -> (r: AuthoringResult<()>)
        ensures
            r is Ok <==> path_starts_with(canonical@, self@),
            r matches Err(e) ==> e@ == (AuthoringErrorView {
                code: AuthoringErrorCode::UnsafePath,
                message: outside_root_message(),
                path: Some(relative@),
            }),
    {
        if !path_has_prefix(canonical, self.0.as_str()) {
            return Err(
                path_error(
                    AuthoringErrorCode::UnsafePath,
                    owned(relative),
                    owned("path resolves outside the project root"),
                ),
            );
        }
        Ok(())
    }
}

} // verus!
