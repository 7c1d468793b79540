//! Resolution of directory targets: the identity mapping from a directory
//! coordinate to the repository path it names, together with the data model
//! of resolution requests and results.

use crate::coordinate::{Coordinate, CoordinateSet, CoordinateView};
use vstd::prelude::*;

verus! {

/// A vertex of the build-dependency graph: something that can be resolved,
/// hashed and cached.
#[derive(Debug)]
pub enum DependencyKey {
    /// A Bazel package, named by a label.
    BazelPackage(crate::coordinate::Label),
    /// The build file of a Bazel package.
    BazelBuildFile(crate::coordinate::Label),
    /// A plain repository directory.
    Path(String),
}

/// What a dependency key resolves to.
#[derive(Debug)]
pub enum DependencyValue {
    /// A directory materialized verbatim.
    Path { path: String },
    /// A package: its direct dependencies and the paths its sources cover.
    PackageInfo { deps: Vec<DependencyKey>, includes: Vec<String> },
}

/// Error from resolving a set of targets.
#[derive(Debug)]
pub enum ResolutionError {
    /// Keys that could not be resolved.
    MissingKeys(Vec<DependencyKey>),
    /// The dependency graph reachable from the request is not acyclic.
    CycleDetected,
    /// The build tool exited non-zero; its exit code and captured stderr.
    BuildToolFailed(i32, String),
}

/// Options governing how aggressively the cache is consulted.
#[derive(Debug)]
pub struct CacheOptions {
    /// When a key cannot be resolved, stop at once so state can be
    /// inspected, instead of reporting the missing keys.
    pub break_on_missing_keys: bool,
}

/// A request to resolve a set of coordinates within a repository.
#[derive(Debug)]
pub struct ResolutionRequest {
    /// Root of the repository the paths are relative to.
    pub repo_root: String,
    /// The coordinates to resolve.
    pub coordinate_set: CoordinateSet,
}

/// The outcome of a resolution: the repository paths to materialize, and the
/// dependency mapping discovered on the way.
#[derive(Debug)]
pub struct ResolutionResult {
    /// Repo-relative paths, slash-separated, one per resolved target.
    pub paths: Vec<String>,
    /// For each resolved target, its key and the value it resolved to.
    pub package_deps: Vec<(DependencyKey, DependencyValue)>,
}

/// The directory a directory coordinate names.
pub open spec fn directory_payload(c: CoordinateView) -> Seq<char> {
    match c {
        CoordinateView::Directory(d) => d,
        _ => Seq::empty(),
    }
}

/// Resolves directory coordinates verbatim: each target `directory:d`
/// contributes the path `d` and the dependency entry `Path(d) -> Path(d)`.
#[derive(Debug)]
pub struct DirectoryResolver {
    cache_root: String,
}

impl DirectoryResolver {
    /// The scratch directory this resolver was created with.
    pub closed spec fn spec_cache_root(&self) -> Seq<char> {
        self.cache_root@
    }

    /// Creates a resolver whose scratch space is the `directory` entry under
    /// the given cache root.
    pub fn new(cache_root: &str) -> (r: Self)
        ensures
            r.spec_cache_root() == cache_root@ + "/directory"@,
    {
        DirectoryResolver { cache_root: String::from_str(cache_root).concat("/directory") }
    }

    /// Resolves a request whose coordinates are all directories. The paths
    /// come out in the order the set stores its members, and the dependency
    /// map sends each directory's key to its own path.
    pub fn resolve(&self, request: &ResolutionRequest, _cache_options: &CacheOptions) -> (r:
        Result<ResolutionResult, ResolutionError>)
        requires
            forall|i: int|
                0 <= i < request.coordinate_set.member_views().len()
                    ==> #[trigger] request.coordinate_set.member_views()[i] is Directory,
        ensures
            r matches Ok(rr) && {
                let vs = request.coordinate_set.member_views();
                &&& rr.paths@.len() == vs.len()
                &&& forall|i: int|
                    0 <= i < vs.len() ==> #[trigger] rr.paths@[i]@ == directory_payload(vs[i])
                &&& rr.package_deps@.len() == vs.len()
                &&& forall|i: int|
                    0 <= i < vs.len() ==> (#[trigger] rr.package_deps@[i].0 matches
                    DependencyKey::Path(k) && k@ == directory_payload(vs[i]))
                &&& forall|i: int|
                    0 <= i < vs.len() ==> (#[trigger] rr.package_deps@[i].1 matches
                    DependencyValue::Path { path } && path@ == directory_payload(vs[i]))
            },
    {
        let ghost vs = request.coordinate_set.member_views();
        let members = request.coordinate_set.underlying();
        let n = members.len();
        let mut paths: Vec<String> = Vec::new();
        let mut package_deps: Vec<(DependencyKey, DependencyValue)> = Vec::new();
        let mut i: usize = 0;
        while i < n
            invariant
                vs == request.coordinate_set.member_views(),
                members@ == request.coordinate_set.members(),
                forall|k: int| 0 <= k < vs.len() ==> #[trigger] vs[k] is Directory,
                n == members@.len(),
                n == vs.len(),
                i <= n,
                paths@.len() == i,
                forall|k: int|
                    0 <= k < i ==> #[trigger] paths@[k]@ == directory_payload(vs[k]),
                package_deps@.len() == i,
                forall|k: int|
                    0 <= k < i ==> (#[trigger] package_deps@[k].0 matches DependencyKey::Path(p)
                        && p@ == directory_payload(vs[k])),
                forall|k: int|
                    0 <= k < i ==> (#[trigger] package_deps@[k].1 matches DependencyValue::Path {
                        path,
                    } && path@ == directory_payload(vs[k])),
            decreases n - i,
        {
            match &members[i] {
                Coordinate::Directory(d) => {
                    proof {
                        assert(vs[i as int] == members@[i as int]@);
                        assert(directory_payload(vs[i as int]) == d@);
                    }
                    paths.push(d.clone());
                    package_deps.push(
                        (
                            DependencyKey::Path(d.clone()),
                            DependencyValue::Path { path: d.clone() },
                        ),
                    );
                },
                _ => {
                    proof {
                        assert(vs[i as int] == members@[i as int]@);
                        assert(false);
                    }
                },
            }
            i += 1;
        }
        Ok(ResolutionResult { paths, package_deps })
    }
}

} // verus!
