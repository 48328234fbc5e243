//! Paths inside a container and on its host, and the conversion between them.

use vstd::prelude::*;
use crate::paths::{has_root, has_root_exec, join_path, lemma_components_of_relative, path_join, relative_part, relative_path};

verus! {

/// Why a path was refused.
#[derive(Debug, Clone, Copy, PartialEq, Eq)]
pub enum PathError {
    /// The path does not start at the root.
    NotAbsolute,
}

/// An absolute path as seen inside the container.
#[derive(Debug, PartialEq, Eq)]
pub struct ContainerPath(String);

/// An absolute path as seen on the host.
#[derive(Debug, PartialEq, Eq)]
pub struct HostPath(String);

impl View for ContainerPath {
    type V = Seq<char>;

    closed spec fn view(&self) -> Seq<char> {
        self.0@
    }
}

impl View for HostPath {
    type V = Seq<char>;

    closed spec fn view(&self) -> Seq<char> {
        self.0@
    }
}

/// `root.join(p)` for a `p` that is read without its root: `p` placed under `root`.
pub open spec fn place_under(root: Seq<char>, p: Seq<char>) -> Seq<char> {
    path_join(root, relative_part(p))
}

/// A path placed under a root that has a root has one too.
pub proof fn lemma_place_under_has_root(root: Seq<char>, p: Seq<char>)
    requires
        has_root(root),
    ensures
        has_root(place_under(root, p)),
{
    lemma_components_of_relative(p);
    let rel = relative_part(p);
    let j = path_join(root, rel);
    assert(j[0] == root[0]);
}

impl ContainerPath {
    #[verifier::type_invariant]
    closed spec fn absolute(self) -> bool {
        has_root(self.0@)
    }

    /// The path, which must be absolute.
    pub fn new(path: &str) -> (r: Result<ContainerPath, PathError>)
        ensures
            has_root(path@) ==> (r matches Ok(c) && c@ == path@),
            !has_root(path@) ==> r == Err::<ContainerPath, PathError>(PathError::NotAbsolute),
    {
        if has_root_exec(path) {
            Ok(ContainerPath(path.to_owned()))
        } else {
            Err(PathError::NotAbsolute)
        }
    }

    /// Where this path lies on the host, for a container whose root directory
    /// is `container_rootfs`.
    pub fn to_host_path(&self, container_rootfs: &HostPath) -> (r: HostPath)
        ensures
            r@ == place_under(container_rootfs@, self@),
    {
        proof {
            use_type_invariant(container_rootfs);
            lemma_place_under_has_root(container_rootfs@, self@);
        }
        let rel = relative_path(self.0.as_str());
        HostPath(join_path(container_rootfs.0.as_str(), rel.as_str()))
    }

    /// The path as text.
    pub fn as_str(&self) -> (r: &str)
        ensures
            r@ == self@,
            has_root(r@),
    {
        proof {
            use_type_invariant(self);
        }
        self.0.as_str()
    }

    /// `p` joined onto this path.
    pub fn join(&self, p: &str) -> (r: String)
        ensures
            r@ == path_join(self@, p@),
    {
        join_path(self.0.as_str(), p)
    }
}

impl HostPath {
    #[verifier::type_invariant]
    closed spec fn absolute(self) -> bool {
        has_root(self.0@)
    }

    /// The path, which must be absolute.
    pub fn new(path: &str) -> (r: Result<HostPath, PathError>)
        ensures
            has_root(path@) ==> (r matches Ok(c) && c@ == path@),
            !has_root(path@) ==> r == Err::<HostPath, PathError>(PathError::NotAbsolute),
    {
        if has_root_exec(path) {
            Ok(HostPath(path.to_owned()))
        } else {
            Err(PathError::NotAbsolute)
        }
    }

    /// The path `path`, known to be absolute.
    pub fn from_absolute(path: &str) -> (r: HostPath)
        requires
            has_root(path@),
        ensures
            r@ == path@,
    {
        HostPath(path.to_owned())
    }

    /// Where this host path lies inside a container that sees the host's root
    /// directory at `host_rootfs`.
    pub fn to_container_path(&self, host_rootfs: &ContainerPath) -> (r: ContainerPath)
        ensures
            r@ == place_under(host_rootfs@, self@),
    {
        proof {
            use_type_invariant(host_rootfs);
            lemma_place_under_has_root(host_rootfs@, self@);
        }
        let rel = relative_path(self.0.as_str());
        ContainerPath(join_path(host_rootfs.0.as_str(), rel.as_str()))
    }

    /// The path as text.
    pub fn as_str(&self) -> (r: &str)
        ensures
            r@ == self@,
            has_root(r@),
    {
        proof {
            use_type_invariant(self);
        }
        self.0.as_str()
    }

    /// `p` joined onto this path.
    pub fn join(&self, p: &str) -> (r: String)
        ensures
            r@ == path_join(self@, p@),
    {
        join_path(self.0.as_str(), p)
    }

    /// `p` joined onto this path, which stays absolute (`PathBuf::push`).
    pub fn joined(&self, p: &str) -> (r: HostPath)
        ensures
            r@ == path_join(self@, p@),
    {
        proof {
            use_type_invariant(self);
        }
        let s = join_path(self.0.as_str(), p);
        assert(has_root(s@)) by {
            if !has_root(p@) {
                assert(s@[0] == self@[0]);
            }
        }
        HostPath(s)
    }
}

impl Clone for ContainerPath {
    fn clone(&self) -> (r: Self)
        ensures
            r@ == self@,
    {
        proof {
            use_type_invariant(self);
        }
        ContainerPath(self.0.clone())
    }
}

impl Clone for HostPath {
    fn clone(&self) -> (r: Self)
        ensures
            r@ == self@,
    {
        proof {
            use_type_invariant(self);
        }
        HostPath(self.0.clone())
    }
}

/// Where the source of a mount lies.
#[derive(Debug, Clone)]
pub enum MountSource {
    Host(HostPath),
    Container(ContainerPath),
    NoSource,
}

} // verus!
