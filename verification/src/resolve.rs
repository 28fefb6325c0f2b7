//! Turning what `cargo metadata` and the crates.io index report into the
//! packages of a workspace: its members, the crates they take from
//! crates.io, the published versions, the crates' metadata, and which
//! dependencies a member inherits from the workspace.

use vstd::prelude::*;
use crate::text::opt_chars;
use crate::semver_model::{SemReq, SemVersion, VersionView, ComparatorView, semver_parse_version, semver_order};
use crate::package::{ascii_lower, dep_kind_section, DepKind, Package, PackageVersion, Purl, Unit, UnitView, Usage};
use crate::update::str_eq;
use crate::registry::RegistryCachePolicy;
use crate::manifest::{TomlKind, ItemKind, kind_at, is_table_like, subtree, lemma_subtree_root, lemma_subtree_subtree, toml_parsed, toml_item_tree, toml_parse, toml_root, toml_get, toml_kind, toml_table_keys};
use vstd::seq_lib::lemma_seq_contains_after_push;

verus! {

/// The kind of a dependency as `cargo metadata` reports it.
#[derive(Debug, Clone, Copy, PartialEq, Eq, Structural)]
pub enum MetaDepKind {
    Normal,
    Development,
    Build,
    /// A kind this version of cargo does not know.
    Unknown,
}

/// A dependency as `cargo metadata` reports it, as plain values.
#[derive(Debug)]
pub struct MetaDependency {
    /// The crate's name.
    pub name: String,
    /// The text of the dependency's source, where it has one.
    pub source: Option<String>,
    pub req: SemReq,
    pub kind: MetaDepKind,
    /// The alias, for a renamed dependency.
    pub rename: Option<String>,
    /// The platform target, as cargo writes it, for a target-specific
    /// dependency.
    pub target: Option<String>,
}

/// A package as `cargo metadata` reports it, as plain values.
#[derive(Debug)]
pub struct MetaPackage {
    pub id: String,
    pub name: String,
    pub version: SemVersion,
    /// The text of the package's source, where it has one.
    pub source: Option<String>,
    pub manifest_path: String,
    pub repository: Option<String>,
    pub homepage: Option<String>,
    pub dependencies: Vec<MetaDependency>,
}

/// What `cargo metadata` reports of a workspace, as plain values.
#[derive(Debug)]
pub struct Metadata {
    /// Every package of the resolved dependency graph.
    pub packages: Vec<MetaPackage>,
    /// The ids of the workspace's members.
    pub workspace_members: Vec<String>,
    pub workspace_root: String,
}

/// The source text of crates.io.
pub open spec fn crates_io_source() -> Seq<char> {
    "registry+https://github.com/rust-lang/crates.io-index"@
}

/// Whether a source is crates.io, as `cargo_metadata::Source::is_crates_io`
/// decides it.
pub open spec fn from_crates_io(source: Option<Seq<char>>) -> bool {
    source == Some(crates_io_source())
}

/// Whether a source is crates.io.
pub fn is_crates_io(source: &Option<String>) -> (r: bool)
    ensures
        r == from_crates_io(opt_chars(*source)),
{
    match source {
        Some(s) => str_eq(s.as_str(), "registry+https://github.com/rust-lang/crates.io-index"),
        None => false,
    }
}

/// The dependency kind of a section; a kind cargo does not know counts as a
/// normal dependency.
pub open spec fn dep_kind_of_spec(k: MetaDepKind) -> DepKind {
    match k {
        MetaDepKind::Normal => DepKind::Normal,
        MetaDepKind::Development => DepKind::Dev,
        MetaDepKind::Build => DepKind::Build,
        MetaDepKind::Unknown => DepKind::Normal,
    }
}

pub fn dep_kind_of(k: MetaDepKind) -> (r: DepKind)
    ensures
        r == dep_kind_of_spec(k),
{
    match k {
        MetaDepKind::Normal => DepKind::Normal,
        MetaDepKind::Development => DepKind::Dev,
        MetaDepKind::Build => DepKind::Build,
        MetaDepKind::Unknown => DepKind::Normal,
    }
}

/// The index of the first package with the id `id`.
pub open spec fn first_with_id(pkgs: Seq<MetaPackage>, id: Seq<char>) -> Option<int>
    decreases pkgs.len(),
{
    if pkgs.len() == 0 {
        None
    } else {
        match first_with_id(pkgs.drop_last(), id) {
            Some(i) => Some(i),
            None => if pkgs.last().id@ == id {
                Some(pkgs.len() - 1)
            } else {
                None
            },
        }
    }
}

/// The members, in the order of their ids, each as the first package with
/// its id; ids that no package has are left out.
pub open spec fn member_indices(pkgs: Seq<MetaPackage>, ids: Seq<Seq<char>>) -> Seq<int>
    decreases ids.len(),
{
    if ids.len() == 0 {
        seq![]
    } else {
        let prev = member_indices(pkgs, ids.drop_last());
        match first_with_id(pkgs, ids.last()) {
            Some(i) => prev.push(i),
            None => prev,
        }
    }
}

pub open spec fn string_views(v: Seq<String>) -> Seq<Seq<char>> {
    v.map_values(|s: String| s@)
}

pub open spec fn index_views(v: Seq<usize>) -> Seq<int> {
    v.map_values(|i: usize| i as int)
}

/// The first package with the id `id`.
fn find_package(pkgs: &Vec<MetaPackage>, id: &str) -> (r: Option<usize>)
    ensures
        match r {
            Some(i) => first_with_id(pkgs@, id@) == Some(i as int) && i < pkgs@.len(),
            None => first_with_id(pkgs@, id@) is None,
        },
{
    let mut i: usize = 0;
    while i < pkgs.len()
        invariant
            i <= pkgs@.len(),
            first_with_id(pkgs@.take(i as int), id@) is None,
        decreases pkgs@.len() - i,
    {
        if str_eq(pkgs[i].id.as_str(), id) {
            proof {
                assert(pkgs@.take(i + 1).drop_last() =~= pkgs@.take(i as int));
                lemma_first_with_id_prefix(pkgs@, id@, i + 1);
            }
            return Some(i);
        }
        proof {
            assert(pkgs@.take(i + 1).drop_last() =~= pkgs@.take(i as int));
        }
        i = i + 1;
    }
    proof {
        assert(pkgs@.take(pkgs@.len() as int) =~= pkgs@);
    }
    None
}

/// A package found in a prefix is the first one in the whole list too.
proof fn lemma_first_with_id_prefix(pkgs: Seq<MetaPackage>, id: Seq<char>, n: int)
    requires
        0 <= n <= pkgs.len(),
        first_with_id(pkgs.take(n), id) is Some,
    ensures
        first_with_id(pkgs, id) == first_with_id(pkgs.take(n), id),
    decreases pkgs.len() - n,
{
    if n < pkgs.len() {
        assert(pkgs.take(n + 1).drop_last() =~= pkgs.take(n));
        lemma_first_with_id_prefix(pkgs, id, n + 1);
    } else {
        assert(pkgs.take(n) =~= pkgs);
    }
}

/// The workspace's members, as indices into its packages.
pub fn workspace_members(meta: &Metadata) -> (r: Vec<usize>)
    ensures
        index_views(r@) == member_indices(meta.packages@, string_views(meta.workspace_members@)),
        forall|i: int| 0 <= i < r@.len() ==> #[trigger] r@[i] < meta.packages@.len(),
{
    let ghost ids = string_views(meta.workspace_members@);
    let mut r: Vec<usize> = Vec::new();
    let mut i: usize = 0;
    while i < meta.workspace_members.len()
        invariant
            i <= meta.workspace_members@.len(),
            ids == string_views(meta.workspace_members@),
            index_views(r@) == member_indices(meta.packages@, ids.take(i as int)),
            forall|j: int| 0 <= j < r@.len() ==> #[trigger] r@[j] < meta.packages@.len(),
        decreases meta.workspace_members@.len() - i,
    {
        proof {
            assert(ids.take(i + 1).drop_last() =~= ids.take(i as int));
            assert(ids.take(i + 1).last() == meta.workspace_members@[i as int]@);
        }
        match find_package(&meta.packages, meta.workspace_members[i].as_str()) {
            Some(j) => {
                r.push(j);
                proof {
                    assert(index_views(r@) =~= index_views(r@.drop_last()).push(j as int));
                }
            },
            None => {},
        }
        i = i + 1;
    }
    proof {
        assert(ids.take(meta.workspace_members@.len() as int) =~= ids);
    }
    r
}

/// Whether `(a, b)` is the place of a dependency: the member `a`, its
/// dependency `b`.
pub open spec fn is_dep_position(pkgs: Seq<MetaPackage>, members: Seq<int>, a: int, b: int) -> bool {
    0 <= a < members.len() && 0 <= b < pkgs[members[a]].dependencies@.len()
}

/// The dependency at place `(a, b)`.
pub open spec fn dep_at(pkgs: Seq<MetaPackage>, members: Seq<int>, a: int, b: int) -> MetaDependency {
    pkgs[members[a]].dependencies@[b]
}

/// Whether some member takes the crate `n` from crates.io.
pub open spec fn uses_crates_io_name(pkgs: Seq<MetaPackage>, members: Seq<int>, n: Seq<char>) -> bool {
    exists|a: int, b: int|
        #![trigger dep_at(pkgs, members, a, b)]
        is_dep_position(pkgs, members, a, b) && from_crates_io(opt_chars(dep_at(pkgs, members, a, b).source))
            && dep_at(pkgs, members, a, b).name@ == n
}

/// Whether `s` holds the text `n`.
fn contains_text(v: &Vec<String>, n: &str) -> (r: bool)
    ensures
        r == string_views(v@).contains(n@),
{
    let mut i: usize = 0;
    while i < v.len()
        invariant
            i <= v@.len(),
            forall|j: int| 0 <= j < i ==> v@[j]@ != n@,
        decreases v@.len() - i,
    {
        if str_eq(v[i].as_str(), n) {
            proof {
                assert(string_views(v@)[i as int] == n@);
            }
            return true;
        }
        i = i + 1;
    }
    proof {
        if string_views(v@).contains(n@) {
            let j = choose|j: int| 0 <= j < string_views(v@).len() && string_views(v@)[j] == n@;
            assert(v@[j]@ == n@);
        }
    }
    false
}

/// The names of the crates that the members take from crates.io, each once.
pub fn collect_crates_io_deps(meta: &Metadata, members: &Vec<usize>) -> (r: Vec<String>)
    requires
        forall|i: int| 0 <= i < members@.len() ==> #[trigger] members@[i] < meta.packages@.len(),
    ensures
        string_views(r@).no_duplicates(),
        forall|n: Seq<char>|
            #[trigger] string_views(r@).contains(n) <==> uses_crates_io_name(meta.packages@, index_views(members@), n),
{
    let ghost pkgs = meta.packages@;
    let ghost ms = index_views(members@);
    let mut names: Vec<String> = Vec::new();
    let mut a: usize = 0;
    while a < members.len()
        invariant
            a <= members@.len(),
            pkgs == meta.packages@,
            ms == index_views(members@),
            forall|i: int| 0 <= i < members@.len() ==> #[trigger] members@[i] < meta.packages@.len(),
            string_views(names@).no_duplicates(),
            forall|n: Seq<char>| #[trigger] string_views(names@).contains(n) <==> exists|x: int, y: int|
                #![trigger dep_at(pkgs, ms, x, y)]
                x < a && is_dep_position(pkgs, ms, x, y) && from_crates_io(opt_chars(dep_at(pkgs, ms, x, y).source))
                    && dep_at(pkgs, ms, x, y).name@ == n,
        decreases members@.len() - a,
    {
        let deps = &meta.packages[members[a]].dependencies;
        assert(deps@ == pkgs[ms[a as int]].dependencies@);
        let mut b: usize = 0;
        while b < deps.len()
            invariant
                a < members@.len(),
                b <= deps@.len(),
                pkgs == meta.packages@,
                ms == index_views(members@),
                deps@ == pkgs[ms[a as int]].dependencies@,
                string_views(names@).no_duplicates(),
                forall|n: Seq<char>| #[trigger] string_views(names@).contains(n) <==> exists|x: int, y: int|
                    #![trigger dep_at(pkgs, ms, x, y)]
                    (x < a || (x == a && y < b)) && is_dep_position(pkgs, ms, x, y) && from_crates_io(
                        opt_chars(dep_at(pkgs, ms, x, y).source),
                    ) && dep_at(pkgs, ms, x, y).name@ == n,
            decreases deps@.len() - b,
        {
            let d = &deps[b];
            assert(*d == dep_at(pkgs, ms, a as int, b as int));
            let ghost before = string_views(names@);
            if is_crates_io(&d.source) && !contains_text(&names, d.name.as_str()) {
                names.push(d.name.clone());
                proof {
                    assert(string_views(names@) =~= before.push(d.name@));
                    assert forall|n: Seq<char>| #[trigger] string_views(names@).contains(n) <==> exists|x: int, y: int|
                        #![trigger dep_at(pkgs, ms, x, y)]
                        (x < a || (x == a && y < b + 1)) && is_dep_position(pkgs, ms, x, y) && from_crates_io(
                            opt_chars(dep_at(pkgs, ms, x, y).source),
                        ) && dep_at(pkgs, ms, x, y).name@ == n by {
                        lemma_seq_contains_after_push(before, d.name@, n);
                        if n == d.name@ {
                            assert(dep_at(pkgs, ms, a as int, b as int) == *d);
                        }
                    }
                }
            } else {
                proof {
                    assert forall|n: Seq<char>| #[trigger] string_views(names@).contains(n) <==> exists|x: int, y: int|
                        #![trigger dep_at(pkgs, ms, x, y)]
                        (x < a || (x == a && y < b + 1)) && is_dep_position(pkgs, ms, x, y) && from_crates_io(
                            opt_chars(dep_at(pkgs, ms, x, y).source),
                        ) && dep_at(pkgs, ms, x, y).name@ == n by {
                        if n == d.name@ && from_crates_io(opt_chars(d.source)) {
                            assert(dep_at(pkgs, ms, a as int, b as int) == *d);
                        }
                    }
                }
            }
            b = b + 1;
        }
        a = a + 1;
    }
    names
}

/// A version of a crate as the index publishes it, as plain values.
#[derive(Debug)]
pub struct IndexVersion {
    pub version: String,
    pub yanked: bool,
    pub features: Vec<(String, Vec<String>)>,
    pub rust_version: Option<String>,
}

/// A version parsed where its text parses.
pub open spec fn parsed_opt_version(s: Option<Seq<char>>) -> Option<VersionView> {
    match s {
        Some(t) => semver_parse_version(t),
        None => None,
    }
}

pub open spec fn opt_version_view(v: Option<SemVersion>) -> Option<VersionView> {
    match v {
        Some(x) => Some(x@),
        None => None,
    }
}

/// `p` is the published version `e`: its number parsed, its yanked flag and
/// features, and its minimum Rust version where that parses.
pub open spec fn version_from_entry(p: PackageVersion, e: IndexVersion) -> bool {
    &&& semver_parse_version(e.version@) == Some(p.version@)
    &&& p.yanked == e.yanked
    &&& p.features == e.features
    &&& opt_version_view(p.rust_version) == parsed_opt_version(opt_chars(e.rust_version))
}

/// The published versions whose number parses, in order.
pub open spec fn kept_versions(entries: Seq<IndexVersion>) -> Seq<IndexVersion>
    decreases entries.len(),
{
    if entries.len() == 0 {
        seq![]
    } else {
        let prev = kept_versions(entries.drop_last());
        if semver_parse_version(entries.last().version@) is Some {
            prev.push(entries.last())
        } else {
            prev
        }
    }
}

/// The published versions of a crate whose numbers parse, in order; others
/// are left out.
pub fn versions_from_entries(entries: Vec<IndexVersion>) -> (r: Vec<PackageVersion>)
    ensures
        r@.len() == kept_versions(entries@).len(),
        forall|j: int| 0 <= j < r@.len() ==> version_from_entry(#[trigger] r@[j], kept_versions(entries@)[j]),
{
    let ghost all = entries@;
    let mut rest = entries;
    let mut out: Vec<PackageVersion> = Vec::new();
    let ghost mut done: int = 0;
    while rest.len() > 0
        invariant
            0 <= done <= all.len(),
            rest@ == all.skip(done),
            out@.len() == kept_versions(all.take(done)).len(),
            forall|j: int| 0 <= j < out@.len() ==> version_from_entry(#[trigger] out@[j], kept_versions(all.take(done))[j]),
        decreases rest@.len(),
    {
        let e = rest.remove(0);
        proof {
            assert(e == all[done]);
            assert(all.take(done + 1).drop_last() =~= all.take(done));
            assert(all.take(done + 1).last() == e);
            assert(rest@ =~= all.skip(done + 1));
        }
        match SemVersion::parse(e.version.as_str()) {
            Ok(version) => {
                let rust_version = match &e.rust_version {
                    Some(t) => match SemVersion::parse(t.as_str()) {
                        Ok(v) => Some(v),
                        Err(_) => None,
                    },
                    None => None,
                };
                let ghost prev = out@;
                out.push(PackageVersion { version, yanked: e.yanked, features: e.features, rust_version });
                proof {
                    assert forall|j: int| 0 <= j < out@.len() implies version_from_entry(#[trigger] out@[j], kept_versions(all.take(done + 1))[j]) by {
                        if j < prev.len() {
                            assert(out@[j] == prev[j]);
                        }
                    }
                }
            },
            Err(_) => {},
        }
        proof {
            done = done + 1;
        }
    }
    proof {
        assert(all.take(done) =~= all);
    }
    out
}

/// `versions` are the published versions of `entries` whose numbers parse,
/// in order.
pub open spec fn versions_of_entries(versions: Seq<PackageVersion>, entries: Seq<IndexVersion>) -> bool {
    &&& versions.len() == kept_versions(entries).len()
    &&& forall|j: int| 0 <= j < versions.len() ==> version_from_entry(#[trigger] versions[j], kept_versions(entries)[j])
}

/// What the index has given so far for a crate.
pub enum IndexAnswer {
    /// Nothing has been asked yet.
    NotAsked,
    /// The local cache holds no entry for the crate.
    CacheMiss,
    /// The local cache's entry.
    Cached(Vec<IndexVersion>),
    /// The registry's answer, which may hold no entry for the crate.
    Fetched(Option<Vec<IndexVersion>>),
    /// The request could not be made, or its answer could not be read.
    Failed,
}

/// The next step in finding a crate's published versions.
pub enum IndexStep {
    /// Ask the local cache.
    ReadCache,
    /// Ask the registry, and write its answer to the cache or not.
    Fetch { write_cache: bool },
    /// The versions are known.
    Done(Vec<PackageVersion>),
    /// The crate's versions cannot be had; it is left without any.
    Skip,
}

/// Decides the next step for a crate's published versions: with the
/// `prefer-local` policy the local cache is asked first; a crate the cache
/// does not hold, or any crate under the other policies, is asked of the
/// registry, whose answer is written to the cache unless the policy is
/// `no-cache`; an entry from either gives the versions whose numbers parse,
/// an answer without an entry gives none, and a failure leaves the crate
/// out.
pub fn index_step(policy: RegistryCachePolicy, answer: IndexAnswer) -> (r: IndexStep)
    ensures
        match answer {
            IndexAnswer::NotAsked => if policy == RegistryCachePolicy::PreferLocal {
                r is ReadCache
            } else {
                r == IndexStep::Fetch { write_cache: policy != RegistryCachePolicy::NoCache }
            },
            IndexAnswer::CacheMiss => r == IndexStep::Fetch { write_cache: policy != RegistryCachePolicy::NoCache },
            IndexAnswer::Cached(e) => r matches IndexStep::Done(v) && versions_of_entries(v@, e@),
            IndexAnswer::Fetched(Some(e)) => r matches IndexStep::Done(v) && versions_of_entries(v@, e@),
            IndexAnswer::Fetched(None) => r matches IndexStep::Done(v) && v@.len() == 0,
            IndexAnswer::Failed => r is Skip,
        },
{
    match answer {
        IndexAnswer::NotAsked => {
            if policy.uses_local_cache() {
                IndexStep::ReadCache
            } else {
                IndexStep::Fetch { write_cache: policy.writes_cache() }
            }
        },
        IndexAnswer::CacheMiss => IndexStep::Fetch { write_cache: policy.writes_cache() },
        IndexAnswer::Cached(e) => IndexStep::Done(versions_from_entries(e)),
        IndexAnswer::Fetched(Some(e)) => IndexStep::Done(versions_from_entries(e)),
        IndexAnswer::Fetched(None) => IndexStep::Done(Vec::new()),
        IndexAnswer::Failed => IndexStep::Skip,
    }
}

/// Where a crate's sources are published: best effort, from the resolved
/// dependency graph.
#[derive(Debug)]
pub struct CrateMeta {
    pub repository: Option<String>,
    pub homepage: Option<String>,
}

/// Whether package `j` is a crates.io package named `n`.
pub open spec fn crates_io_named(pkgs: Seq<MetaPackage>, j: int, n: Seq<char>) -> bool {
    0 <= j < pkgs.len() && from_crates_io(opt_chars(pkgs[j].source)) && pkgs[j].name@ == n
}

/// Whether package `w` is the one whose metadata stands for the crate `n`:
/// of the crates.io packages named `n`, the first with the latest version.
pub open spec fn is_meta_source(pkgs: Seq<MetaPackage>, n: Seq<char>, w: int) -> bool {
    &&& crates_io_named(pkgs, w, n)
    &&& forall|j: int|
        #![trigger crates_io_named(pkgs, j, n)]
        j != w && crates_io_named(pkgs, j, n) ==> semver_order(pkgs[j].version@, pkgs[w].version@) <= 0
    &&& forall|j: int|
        #![trigger crates_io_named(pkgs, j, n)]
        j < w && crates_io_named(pkgs, j, n) ==> semver_order(pkgs[j].version@, pkgs[w].version@) < 0
}

/// A copy of an optional text.
pub fn copy_opt_string(o: &Option<String>) -> (r: Option<String>)
    ensures
        opt_chars(r) == opt_chars(*o),
{
    match o {
        Some(s) => Some(s.clone()),
        None => None,
    }
}

/// The entry of crate `e.0` holds the metadata of its source package.
pub open spec fn meta_entry_from(all: Seq<MetaPackage>, e: (String, CrateMeta)) -> bool {
    exists|w: int|
        is_meta_source(all, e.0@, w) && opt_chars(e.1.repository) == opt_chars(all[w].repository) && opt_chars(
            e.1.homepage,
        ) == opt_chars(all[w].homepage)
}

pub open spec fn meta_names(v: Seq<(String, CrateMeta)>) -> Seq<Seq<char>> {
    v.map_values(|e: (String, CrateMeta)| e.0@)
}

pub open spec fn winner_names(v: Seq<(String, usize)>) -> Seq<Seq<char>> {
    v.map_values(|e: (String, usize)| e.0@)
}

/// In a prefix of the packages, `j` is a crates.io package named `n` where
/// it is one in the whole list and lies in the prefix.
proof fn lemma_named_take(pkgs: Seq<MetaPackage>, m: int)
    requires
        0 <= m <= pkgs.len(),
    ensures
        forall|j: int, n: Seq<char>|
            #[trigger] crates_io_named(pkgs.take(m), j, n) == (j < m && crates_io_named(pkgs, j, n)),
{
}

/// A package that is not a crates.io package named `n` changes nothing for `n`.
proof fn lemma_meta_source_extend(pkgs: Seq<MetaPackage>, k: int, n: Seq<char>, w: int)
    requires
        0 <= k < pkgs.len(),
        is_meta_source(pkgs.take(k), n, w),
        !crates_io_named(pkgs, k, n),
    ensures
        is_meta_source(pkgs.take(k + 1), n, w),
{
    lemma_named_take(pkgs, k);
    lemma_named_take(pkgs, k + 1);
    lemma_meta_source_grow(pkgs, k, n, w);
}

/// What held of the first `k` packages holds of the first `k + 1` where
/// package `k` is no later than the source.
proof fn lemma_meta_source_grow(pkgs: Seq<MetaPackage>, k: int, n: Seq<char>, w: int)
    requires
        0 <= k < pkgs.len(),
        is_meta_source(pkgs.take(k), n, w),
        crates_io_named(pkgs, k, n) ==> semver_order(pkgs[k].version@, pkgs[w].version@) <= 0,
    ensures
        is_meta_source(pkgs.take(k + 1), n, w),
{
    lemma_named_take(pkgs, k);
    lemma_named_take(pkgs, k + 1);
    let a = pkgs.take(k);
    let b = pkgs.take(k + 1);
    assert(crates_io_named(a, w, n));
    assert(b[w] == pkgs[w] && a[w] == pkgs[w]);
    assert forall|j: int| #![trigger crates_io_named(b, j, n)]
        j != w && crates_io_named(b, j, n) implies semver_order(b[j].version@, b[w].version@) <= 0 by {
        if j < k {
            assert(crates_io_named(a, j, n));
            assert(a[j] == pkgs[j] && b[j] == pkgs[j]);
        }
    }
    assert forall|j: int| #![trigger crates_io_named(b, j, n)]
        j < w && crates_io_named(b, j, n) implies semver_order(b[j].version@, b[w].version@) < 0 by {
        assert(crates_io_named(a, j, n));
        assert(a[j] == pkgs[j] && b[j] == pkgs[j]);
    }
}

/// A later package named `n` with no later version leaves the source of `n`.
proof fn lemma_meta_source_keep(pkgs: Seq<MetaPackage>, k: int, n: Seq<char>, w: int)
    requires
        0 <= k < pkgs.len(),
        is_meta_source(pkgs.take(k), n, w),
        crates_io_named(pkgs, k, n),
        semver_order(pkgs[k].version@, pkgs[w].version@) <= 0,
    ensures
        is_meta_source(pkgs.take(k + 1), n, w),
{
    lemma_meta_source_grow(pkgs, k, n, w);
}

/// A later package named `n` with a later version becomes the source of `n`.
proof fn lemma_meta_source_replace(pkgs: Seq<MetaPackage>, k: int, n: Seq<char>, w: int)
    requires
        0 <= k < pkgs.len(),
        is_meta_source(pkgs.take(k), n, w),
        crates_io_named(pkgs, k, n),
        semver_order(pkgs[w].version@, pkgs[k].version@) < 0,
        forall|c: VersionView| #[trigger] semver_order(c, pkgs[k].version@) >= 0 ==> semver_order(c, pkgs[w].version@) > 0,
    ensures
        is_meta_source(pkgs.take(k + 1), n, k),
{
    lemma_named_take(pkgs, k);
    lemma_named_take(pkgs, k + 1);
    assert forall|j: int| #![trigger crates_io_named(pkgs.take(k + 1), j, n)]
        j != k && crates_io_named(pkgs.take(k + 1), j, n) implies semver_order(pkgs[j].version@, pkgs[k].version@) < 0 by {
        assert(crates_io_named(pkgs.take(k), j, n));
        if j != w {
            assert(semver_order(pkgs.take(k)[j].version@, pkgs.take(k)[w].version@) <= 0);
        }
    }
}

/// The first package named `n` is its source.
proof fn lemma_meta_source_new(pkgs: Seq<MetaPackage>, k: int, n: Seq<char>)
    requires
        0 <= k < pkgs.len(),
        crates_io_named(pkgs, k, n),
        forall|j: int| #![trigger crates_io_named(pkgs, j, n)] j < k ==> !crates_io_named(pkgs, j, n),
    ensures
        is_meta_source(pkgs.take(k + 1), n, k),
{
    lemma_named_take(pkgs, k + 1);
}

/// Where the crate `name` stands among the winners so far.
fn find_winner(wins: &Vec<(String, usize)>, name: &str) -> (r: Option<usize>)
    ensures
        match r {
            Some(i) => i < wins@.len() && winner_names(wins@)[i as int] == name@,
            None => !winner_names(wins@).contains(name@),
        },
{
    let mut i: usize = 0;
    while i < wins.len()
        invariant
            i <= wins@.len(),
            forall|x: int| 0 <= x < i ==> wins@[x].0@ != name@,
        decreases wins@.len() - i,
    {
        if str_eq(wins[i].0.as_str(), name) {
            return Some(i);
        }
        i = i + 1;
    }
    proof {
        if winner_names(wins@).contains(name@) {
            let x = choose|x: int| 0 <= x < wins@.len() && winner_names(wins@)[x] == name@;
            assert(wins@[x].0@ == name@);
        }
    }
    None
}

/// The metadata of each crate that the graph takes from crates.io: where
/// several versions of a crate are present, the latest one's.
pub fn crate_meta_from_packages(all: &Vec<MetaPackage>) -> (r: Vec<(String, CrateMeta)>)
    ensures
        meta_names(r@).no_duplicates(),
        forall|n: Seq<char>| #[trigger] meta_names(r@).contains(n) <==> exists|j: int| crates_io_named(all@, j, n),
        forall|i: int| 0 <= i < r@.len() ==> meta_entry_from(all@, #[trigger] r@[i]),
{
    let ghost pkgs = all@;
    let mut wins: Vec<(String, usize)> = Vec::new();
    let mut k: usize = 0;
    while k < all.len()
        invariant
            k <= pkgs.len(),
            pkgs == all@,
            winner_names(wins@).no_duplicates(),
            forall|n: Seq<char>| #[trigger] winner_names(wins@).contains(n) <==> exists|j: int|
                #![trigger crates_io_named(pkgs, j, n)]
                j < k && crates_io_named(pkgs, j, n),
            forall|i: int|
                #![trigger wins@[i]]
                0 <= i < wins@.len() ==> wins@[i].1 < k && is_meta_source(pkgs.take(k as int), wins@[i].0@, wins@[i].1 as int),
        decreases pkgs.len() - k,
    {
        let p = &all[k];
        let ghost before = wins@;
        proof {
            lemma_named_take(pkgs, k as int);
            lemma_named_take(pkgs, k + 1);
        }
        if is_crates_io(&p.source) {
            let found_at = find_winner(&wins, p.name.as_str());
            match found_at {
                Some(i) => {
                    let w = wins[i].1;
                    let c = all[w].version.order(&p.version);
                    proof {
                        assert forall|x: int| #![trigger before[x]] 0 <= x < before.len() && x != i implies before[x].0@ != p.name@ by {
                            assert(winner_names(before)[x] == before[x].0@);
                            assert(winner_names(before)[i as int] == p.name@);
                        }
                        assert forall|x: int| #![trigger before[x]] 0 <= x < before.len() && x != i implies
                            is_meta_source(pkgs.take(k + 1), before[x].0@, before[x].1 as int) by {
                            lemma_meta_source_extend(pkgs, k as int, before[x].0@, before[x].1 as int);
                        }
                    }
                    if c < 0 {
                        let name = wins[i].0.clone();
                        wins.set(i, (name, k));
                        proof {
                            assert(winner_names(wins@) =~= winner_names(before));
                            lemma_meta_source_replace(pkgs, k as int, p.name@, w as int);
                            assert forall|x: int| #![trigger wins@[x]] 0 <= x < wins@.len() implies wins@[x].1 < k + 1
                                && is_meta_source(pkgs.take(k + 1), wins@[x].0@, wins@[x].1 as int) by {
                                if x != i {
                                    assert(wins@[x] == before[x]);
                                }
                            }
                        }
                    } else {
                        proof {
                            lemma_meta_source_keep(pkgs, k as int, p.name@, w as int);
                            assert forall|x: int| #![trigger wins@[x]] 0 <= x < wins@.len() implies wins@[x].1 < k + 1
                                && is_meta_source(pkgs.take(k + 1), wins@[x].0@, wins@[x].1 as int) by {
                                assert(wins@[x] == before[x]);
                            }
                        }
                    }
                },
                None => {
                    wins.push((p.name.clone(), k));
                    proof {
                        assert(winner_names(wins@) =~= winner_names(before).push(p.name@));
                        assert forall|n: Seq<char>| #[trigger] winner_names(wins@).contains(n) <==> exists|j: int|
                            #![trigger crates_io_named(pkgs, j, n)]
                            j < k + 1 && crates_io_named(pkgs, j, n) by {
                            lemma_seq_contains_after_push(winner_names(before), p.name@, n);
                            if n == p.name@ {
                                assert(crates_io_named(pkgs, k as int, n));
                            }
                        }
                        lemma_meta_source_new(pkgs, k as int, p.name@);
                        assert forall|x: int| #![trigger wins@[x]] 0 <= x < wins@.len() implies wins@[x].1 < k + 1
                            && is_meta_source(pkgs.take(k + 1), wins@[x].0@, wins@[x].1 as int) by {
                            if x < before.len() {
                                assert(wins@[x] == before[x]);
                                assert(before[x].0@ != p.name@) by {
                                    assert(winner_names(before)[x] == before[x].0@);
                                }
                                lemma_meta_source_extend(pkgs, k as int, before[x].0@, before[x].1 as int);
                            }
                        }
                    }
                },
            }
        } else {
            proof {
                assert forall|x: int| #![trigger wins@[x]] 0 <= x < wins@.len() implies wins@[x].1 < k + 1
                    && is_meta_source(pkgs.take(k + 1), wins@[x].0@, wins@[x].1 as int) by {
                    lemma_meta_source_extend(pkgs, k as int, wins@[x].0@, wins@[x].1 as int);
                }
            }
        }
        k = k + 1;
    }
    proof {
        assert(pkgs.take(k as int) =~= pkgs);
    }
    let mut out: Vec<(String, CrateMeta)> = Vec::new();
    let mut i: usize = 0;
    while i < wins.len()
        invariant
            i <= wins@.len(),
            pkgs == all@,
            forall|x: int| #![trigger wins@[x]] 0 <= x < wins@.len() ==> wins@[x].1 < pkgs.len()
                && is_meta_source(pkgs, wins@[x].0@, wins@[x].1 as int),
            out@.len() == i,
            forall|x: int| #![trigger out@[x]] 0 <= x < i ==> out@[x].0@ == wins@[x].0@
                && opt_chars(out@[x].1.repository) == opt_chars(pkgs[wins@[x].1 as int].repository)
                && opt_chars(out@[x].1.homepage) == opt_chars(pkgs[wins@[x].1 as int].homepage),
        decreases wins@.len() - i,
    {
        let w = wins[i].1;
        let meta = CrateMeta {
            repository: copy_opt_string(&all[w].repository),
            homepage: copy_opt_string(&all[w].homepage),
        };
        out.push((wins[i].0.clone(), meta));
        i = i + 1;
    }
    proof {
        assert(meta_names(out@) =~= winner_names(wins@));
        assert forall|x: int| 0 <= x < out@.len() implies meta_entry_from(all@, #[trigger] out@[x]) by {
            let w = wins@[x].1 as int;
            assert(is_meta_source(all@, out@[x].0@, w) && opt_chars(out@[x].1.repository) == opt_chars(
                all@[w].repository,
            ) && opt_chars(out@[x].1.homepage) == opt_chars(all@[w].homepage));
        }
    }
    out
}

/// The dependencies of a member's manifest that it inherits from the
/// workspace (`workspace = true`): those of its own tables, by kind and key,
/// and those under platform targets, by kind, key and target.
#[derive(Debug)]
pub struct InheritedDeps {
    root: Vec<(DepKind, String)>,
    target: Vec<(DepKind, String, String)>,
}

/// Whether the entry `n` of a table says `workspace = true`.
pub open spec fn entry_says_workspace(tbl: Map<Seq<Seq<char>>, TomlKind>, n: Seq<char>) -> bool {
    is_table_like(kind_at(tbl, seq![n])) && kind_at(tbl, seq![n, "workspace"@]) == Some(TomlKind::Bool(true))
}

/// Whether the manifest's own table of kind `k` has the entry `n` inherited
/// from the workspace.
pub open spec fn inherits_in_root(m: Map<Seq<Seq<char>>, TomlKind>, k: DepKind, n: Seq<char>) -> bool {
    kind_at(m, seq![dep_kind_section(k)]) == Some(TomlKind::Table) && entry_says_workspace(
        subtree(m, seq![dep_kind_section(k)]),
        n,
    )
}

/// Whether the manifest's table of kind `k` under the target `t` has the
/// entry `n` inherited from the workspace.
pub open spec fn inherits_in_target(m: Map<Seq<Seq<char>>, TomlKind>, k: DepKind, n: Seq<char>, t: Seq<char>) -> bool {
    &&& kind_at(m, seq!["target"@]) == Some(TomlKind::Table)
    &&& kind_at(m, seq!["target"@, t]) == Some(TomlKind::Table)
    &&& kind_at(m, seq!["target"@, t, dep_kind_section(k)]) == Some(TomlKind::Table)
    &&& entry_says_workspace(subtree(m, seq!["target"@, t, dep_kind_section(k)]), n)
}

pub open spec fn manifest_inherits_in_root(text: Seq<char>, k: DepKind, n: Seq<char>) -> bool {
    toml_parsed(text) is Ok && inherits_in_root(toml_parsed(text)->Ok_0, k, n)
}

pub open spec fn manifest_inherits_in_target(text: Seq<char>, k: DepKind, n: Seq<char>, t: Seq<char>) -> bool {
    toml_parsed(text) is Ok && inherits_in_target(toml_parsed(text)->Ok_0, k, n, t)
}

pub open spec fn root_entry_views(v: Seq<(DepKind, String)>) -> Seq<(DepKind, Seq<char>)> {
    v.map_values(|e: (DepKind, String)| (e.0, e.1@))
}

pub open spec fn target_entry_views(v: Seq<(DepKind, String, String)>) -> Seq<(DepKind, Seq<char>, Seq<char>)> {
    v.map_values(|e: (DepKind, String, String)| (e.0, e.1@, e.2@))
}

impl InheritedDeps {
    /// The inherited entries of the manifest's own tables.
    pub closed spec fn root_view(&self) -> Set<(DepKind, Seq<char>)> {
        root_entry_views(self.root@).to_set()
    }

    /// The inherited entries under platform targets.
    pub closed spec fn target_view(&self) -> Set<(DepKind, Seq<char>, Seq<char>)> {
        target_entry_views(self.target@).to_set()
    }

    /// Nothing inherited.
    pub fn new() -> (r: InheritedDeps)
        ensures
            r.root_view() == Set::<(DepKind, Seq<char>)>::empty(),
            r.target_view() == Set::<(DepKind, Seq<char>, Seq<char>)>::empty(),
    {
        let r = InheritedDeps { root: Vec::new(), target: Vec::new() };
        proof {
            assert(r.root_view() =~= Set::<(DepKind, Seq<char>)>::empty());
            assert(r.target_view() =~= Set::<(DepKind, Seq<char>, Seq<char>)>::empty());
        }
        r
    }

    /// Records the entry `name` of kind `kind` of the manifest's own tables.
    fn add_root(&mut self, kind: DepKind, name: &str)
        ensures
            final(self).root_view() == old(self).root_view().insert((kind, name@)),
            final(self).target_view() == old(self).target_view(),
    {
        let ghost before = self.root@;
        self.root.push((kind, name.to_owned()));
        proof {
            assert(root_entry_views(self.root@) =~= root_entry_views(before).push((kind, name@)));
            root_entry_views(before).lemma_push_to_set_commute((kind, name@));
        }
    }

    /// Records the entry `name` of kind `kind` under the target `target`.
    fn add_target(&mut self, kind: DepKind, name: &str, target: &str)
        ensures
            final(self).target_view() == old(self).target_view().insert((kind, name@, target@)),
            final(self).root_view() == old(self).root_view(),
    {
        let ghost before = self.target@;
        self.target.push((kind, name.to_owned(), target.to_owned()));
        proof {
            assert(target_entry_views(self.target@) =~= target_entry_views(before).push((kind, name@, target@)));
            target_entry_views(before).lemma_push_to_set_commute((kind, name@, target@));
        }
    }

    /// Whether the dependency is inherited from the workspace: looked up by
    /// its key in the manifest (the alias of a renamed dependency), its kind
    /// and, for a target-specific dependency, its target.
    pub fn contains(&self, dep: &MetaDependency) -> (r: bool)
        ensures
            r == inherits(*self, *dep),
    {
        let key = match &dep.rename {
            Some(r) => r.as_str(),
            None => dep.name.as_str(),
        };
        let kind = dep_kind_of(dep.kind);
        match &dep.target {
            Some(t) => {
                let mut i: usize = 0;
                while i < self.target.len()
                    invariant
                        i <= self.target@.len(),
                        kind == dep_kind_of_spec(dep.kind),
                        key@ == dep_key(*dep),
                        dep.target == Some(*t),
                        forall|j: int| 0 <= j < i ==> #[trigger] self.target@[j].0 != kind || self.target@[j].1@ != key@
                            || self.target@[j].2@ != t@,
                    decreases self.target@.len() - i,
                {
                    let e = &self.target[i];
                    if e.0 == kind && str_eq(e.1.as_str(), key) && str_eq(e.2.as_str(), t.as_str()) {
                        proof {
                                            assert(target_entry_views(self.target@)[i as int] == (kind, key@, t@));
                            assert(target_entry_views(self.target@).contains((kind, key@, t@)));
                        }
                        return true;
                    }
                    i = i + 1;
                }
                proof {
                            if target_entry_views(self.target@).to_set().contains((kind, key@, t@)) {
                        let j = choose|j: int| 0 <= j < self.target@.len() && target_entry_views(self.target@)[j] == (kind, key@, t@);
                        assert(self.target@[j].0 == kind);
                    }
                }
                false
            },
            None => {
                let mut i: usize = 0;
                while i < self.root.len()
                    invariant
                        i <= self.root@.len(),
                        kind == dep_kind_of_spec(dep.kind),
                        key@ == dep_key(*dep),
                        dep.target is None,
                        forall|j: int| 0 <= j < i ==> #[trigger] self.root@[j].0 != kind || self.root@[j].1@ != key@,
                    decreases self.root@.len() - i,
                {
                    let e = &self.root[i];
                    if e.0 == kind && str_eq(e.1.as_str(), key) {
                        proof {
                                            assert(root_entry_views(self.root@)[i as int] == (kind, key@));
                            assert(root_entry_views(self.root@).contains((kind, key@)));
                        }
                        return true;
                    }
                    i = i + 1;
                }
                proof {
                            if root_entry_views(self.root@).to_set().contains((kind, key@)) {
                        let j = choose|j: int| 0 <= j < self.root@.len() && root_entry_views(self.root@)[j] == (kind, key@);
                        assert(self.root@[j].0 == kind);
                    }
                }
                false
            },
        }
    }
}

/// Whether the inherited entries hold the dependency: by its key in the
/// manifest, its kind and, for a target-specific dependency, its target.
pub open spec fn inherits(d: InheritedDeps, dep: MetaDependency) -> bool {
    match dep.target {
        Some(t) => d.target_view().contains((dep_kind_of_spec(dep.kind), dep_key(dep), t@)),
        None => d.root_view().contains((dep_kind_of_spec(dep.kind), dep_key(dep))),
    }
}

/// The key of a dependency in its manifest: its alias where it is renamed.
pub open spec fn dep_key(d: MetaDependency) -> Seq<char> {
    match d.rename {
        Some(r) => r@,
        None => d.name@,
    }
}

/// Whether the entry `n` of a table item says `workspace = true`, found
/// through its items.
fn says_workspace(table: &toml_edit::Item, n: &str) -> (r: bool)
    ensures
        r == entry_says_workspace(toml_item_tree(*table), n@),
{
    let ghost tbl = toml_item_tree(*table);
    proof {
        lemma_subtree_root(tbl, seq![n@]);
        lemma_subtree_subtree(tbl, seq![n@], seq!["workspace"@]);
        assert(seq![n@] + seq!["workspace"@] =~= seq![n@, "workspace"@]);
        lemma_subtree_root(tbl, seq![n@, "workspace"@]);
    }
    match toml_get(table, n) {
        Some(v) => {
            let table_like = match toml_kind(v) {
                ItemKind::Table | ItemKind::InlineTable => true,
                _ => false,
            };
            if !table_like {
                return false;
            }
            match toml_get(v, "workspace") {
                Some(w) => match toml_kind(w) {
                    ItemKind::Bool(b) => b,
                    _ => false,
                },
                None => false,
            }
        },
        None => false,
    }
}

/// Records the entries of a table of dependencies of kind `kind` (under the
/// target `target`, where there is one) that say `workspace = true`.
fn collect_workspace_inherited_from_table(
    table: &toml_edit::Item,
    kind: DepKind,
    target: Option<&str>,
    out: &mut InheritedDeps,
)
    requires
        kind_at(toml_item_tree(*table), Seq::empty()) == Some(TomlKind::Table),
    ensures
        match target {
            None => {
                &&& forall|k: DepKind, n: Seq<char>|
                    #[trigger] final(out).root_view().contains((k, n)) <==> (old(out).root_view().contains((k, n)) || (k
                        == kind && entry_says_workspace(toml_item_tree(*table), n)))
                &&& final(out).target_view() == old(out).target_view()
            },
            Some(t) => {
                &&& forall|k: DepKind, n: Seq<char>, u: Seq<char>|
                    #[trigger] final(out).target_view().contains((k, n, u)) <==> (old(out).target_view().contains(
                        (k, n, u),
                    ) || (k == kind && u == t@ && entry_says_workspace(toml_item_tree(*table), n)))
                &&& final(out).root_view() == old(out).root_view()
            },
        },
{
    let ghost tbl = toml_item_tree(*table);
    let keys = toml_table_keys(table);
    let ghost keys_v = crate::manifest::string_views(keys@);
    let mut i: usize = 0;
    while i < keys.len()
        invariant
            i <= keys@.len(),
            tbl == toml_item_tree(*table),
            keys_v == crate::manifest::string_views(keys@),
            forall|x: Seq<char>| keys_v.contains(x) <==> tbl.dom().contains(seq![x]),
            match target {
                None => {
                    &&& forall|k: DepKind, n: Seq<char>|
                        #[trigger] out.root_view().contains((k, n)) <==> (old(out).root_view().contains((k, n)) || (k
                            == kind && keys_v.take(i as int).contains(n) && entry_says_workspace(tbl, n)))
                    &&& out.target_view() == old(out).target_view()
                },
                Some(t) => {
                    &&& forall|k: DepKind, n: Seq<char>, u: Seq<char>|
                        #[trigger] out.target_view().contains((k, n, u)) <==> (old(out).target_view().contains(
                            (k, n, u),
                        ) || (k == kind && u == t@ && keys_v.take(i as int).contains(n) && entry_says_workspace(tbl, n)))
                    &&& out.root_view() == old(out).root_view()
                },
            },
        decreases keys@.len() - i,
    {
        let name = keys[i].as_str();
        let ghost x = keys_v[i as int];
        proof {
            assert(keys_v.take(i + 1) =~= keys_v.take(i as int).push(x));
            assert forall|n: Seq<char>| #[trigger] keys_v.take(i + 1).contains(n) == (keys_v.take(i as int).contains(n) || n == x) by {
                lemma_seq_contains_after_push(keys_v.take(i as int), x, n);
            }
        }
        if says_workspace(table, name) {
            match target {
                Some(t) => out.add_target(kind, name, t),
                None => out.add_root(kind, name),
            }
        }
        i = i + 1;
    }
    proof {
        assert(keys_v.take(keys@.len() as int) =~= keys_v);
        assert forall|n: Seq<char>| entry_says_workspace(tbl, n) implies #[trigger] keys_v.contains(n) by {}
    }
}

/// The table of kind `kind` under `parent`, if it is a table.
fn dependency_table<'a>(parent: &'a toml_edit::Item, kind: DepKind) -> (r: Option<&'a toml_edit::Item>)
    ensures
        r is Some <==> kind_at(toml_item_tree(*parent), seq![dep_kind_section(kind)]) == Some(TomlKind::Table),
        r matches Some(t) ==> toml_item_tree(*t) == subtree(toml_item_tree(*parent), seq![dep_kind_section(kind)]),
{
    let section = kind.to_string();
    proof {
        lemma_subtree_root(toml_item_tree(*parent), seq![dep_kind_section(kind)]);
    }
    match toml_get(parent, section.as_str()) {
        Some(t) => match toml_kind(t) {
            ItemKind::Table => Some(t),
            _ => None,
        },
        None => None,
    }
}

/// The dependencies that a member's manifest inherits from the workspace:
/// the entries of its tables of dependencies, and of those under its
/// platform targets, that say `workspace = true`. A manifest that does not
/// parse inherits nothing.
pub fn workspace_inherited_deps(contents: &str) -> (r: InheritedDeps)
    ensures
        forall|k: DepKind, n: Seq<char>|
            #[trigger] r.root_view().contains((k, n)) <==> manifest_inherits_in_root(contents@, k, n),
        forall|k: DepKind, n: Seq<char>, t: Seq<char>|
            #[trigger] r.target_view().contains((k, n, t)) <==> manifest_inherits_in_target(contents@, k, n, t),
{
    let doc = match toml_parse(contents) {
        Ok(d) => d,
        Err(_) => {
            return InheritedDeps::new();
        },
    };
    let root = toml_root(&doc);
    let ghost m = toml_item_tree(*root);
    let mut out = InheritedDeps::new();
    let kinds: Vec<DepKind> = vec![DepKind::Normal, DepKind::Dev, DepKind::Build];
    let mut a: usize = 0;
    while a < kinds.len()
        invariant
            a <= 3,
            kinds@ == seq![DepKind::Normal, DepKind::Dev, DepKind::Build],
            m == toml_item_tree(*root),
            forall|k: DepKind, n: Seq<char>|
                #[trigger] out.root_view().contains((k, n)) <==> (kinds@.take(a as int).contains(k) && inherits_in_root(m, k, n)),
            out.target_view() == Set::<(DepKind, Seq<char>, Seq<char>)>::empty(),
        decreases 3 - a,
    {
        let kind = kinds[a];
        proof {
            assert(kinds@.take(a + 1) =~= kinds@.take(a as int).push(kind));
            assert forall|k: DepKind| #[trigger] kinds@.take(a + 1).contains(k) == (kinds@.take(a as int).contains(k) || k == kind) by {
                lemma_seq_contains_after_push(kinds@.take(a as int), kind, k);
            }
        }
        match dependency_table(root, kind) {
            Some(t) => collect_workspace_inherited_from_table(t, kind, None, &mut out),
            None => {},
        }
        a = a + 1;
    }
    proof {
        assert(kinds@.take(3) =~= kinds@);
        assert forall|k: DepKind| #[trigger] kinds@.contains(k) by {
            match k {
                DepKind::Normal => assert(kinds@[0] == k),
                DepKind::Dev => assert(kinds@[1] == k),
                DepKind::Build => assert(kinds@[2] == k),
            }
        }
    }
    let ghost root_done = out.root_view();
    let target = match toml_get(root, "target") {
        Some(t) => match toml_kind(t) {
            ItemKind::Table => Some(t),
            _ => None,
        },
        None => None,
    };
    proof {
        lemma_subtree_root(m, seq!["target"@]);
    }
    match target {
        Some(targets) => {
            let names = toml_table_keys(targets);
            let ghost names_v = crate::manifest::string_views(names@);
            let mut i: usize = 0;
            while i < names.len()
                invariant
                    i <= names@.len(),
                    m == toml_item_tree(*root),
                    kind_at(m, seq!["target"@]) == Some(TomlKind::Table),
                    toml_item_tree(*targets) == subtree(m, seq!["target"@]),
                    names_v == crate::manifest::string_views(names@),
                    forall|x: Seq<char>| names_v.contains(x) <==> toml_item_tree(*targets).dom().contains(seq![x]),
                    out.root_view() == root_done,
                    forall|k: DepKind, n: Seq<char>, t: Seq<char>|
                        #[trigger] out.target_view().contains((k, n, t)) <==> (names_v.take(i as int).contains(t)
                            && inherits_in_target(m, k, n, t)),
                decreases names@.len() - i,
            {
                let name = names[i].as_str();
                let ghost t = names_v[i as int];
                proof {
                    assert(names_v.take(i + 1) =~= names_v.take(i as int).push(t));
                    assert forall|x: Seq<char>| #[trigger] names_v.take(i + 1).contains(x) == (names_v.take(i as int).contains(x) || x == t) by {
                        lemma_seq_contains_after_push(names_v.take(i as int), t, x);
                    }
                    lemma_subtree_subtree(m, seq!["target"@], seq![t]);
                    assert(seq!["target"@] + seq![t] =~= seq!["target"@, t]);
                    lemma_subtree_root(m, seq!["target"@, t]);
                }
                let item = toml_get(targets, name);
                match item {
                    Some(t_item) => {
                        match toml_kind(t_item) {
                            ItemKind::Table => {
                                collect_target_sections(t_item, name, &mut out, Ghost(m));
                            },
                            _ => {},
                        }
                    },
                    None => {},
                }
                i = i + 1;
            }
            proof {
                assert(names_v.take(names@.len() as int) =~= names_v);
                assert forall|k: DepKind, n: Seq<char>, t: Seq<char>| #[trigger] inherits_in_target(m, k, n, t) implies names_v.contains(t) by {
                    assert(seq!["target"@] + seq![t] =~= seq!["target"@, t]);
                }
            }
        },
        None => {},
    }
    out
}

/// Records the inherited entries of the tables of dependencies under one
/// target.
fn collect_target_sections(t_item: &toml_edit::Item, name: &str, out: &mut InheritedDeps, Ghost(m): Ghost<Map<Seq<Seq<char>>, TomlKind>>)
    requires
        toml_item_tree(*t_item) == subtree(m, seq!["target"@, name@]),
        kind_at(m, seq!["target"@]) == Some(TomlKind::Table),
        kind_at(m, seq!["target"@, name@]) == Some(TomlKind::Table),
    ensures
        final(out).root_view() == old(out).root_view(),
        forall|k: DepKind, n: Seq<char>, t: Seq<char>|
            #[trigger] final(out).target_view().contains((k, n, t)) <==> (old(out).target_view().contains((k, n, t)) || (t
                == name@ && inherits_in_target(m, k, n, t))),
{
    let kinds: Vec<DepKind> = vec![DepKind::Normal, DepKind::Dev, DepKind::Build];
    let mut a: usize = 0;
    while a < kinds.len()
        invariant
            a <= 3,
            kinds@ == seq![DepKind::Normal, DepKind::Dev, DepKind::Build],
            toml_item_tree(*t_item) == subtree(m, seq!["target"@, name@]),
            kind_at(m, seq!["target"@]) == Some(TomlKind::Table),
            kind_at(m, seq!["target"@, name@]) == Some(TomlKind::Table),
            out.root_view() == old(out).root_view(),
            forall|k: DepKind, n: Seq<char>, t: Seq<char>|
                #[trigger] out.target_view().contains((k, n, t)) <==> (old(out).target_view().contains((k, n, t)) || (t
                    == name@ && kinds@.take(a as int).contains(k) && inherits_in_target(m, k, n, t))),
        decreases 3 - a,
    {
        let kind = kinds[a];
        proof {
            assert(kinds@.take(a + 1) =~= kinds@.take(a as int).push(kind));
            assert forall|k: DepKind| #[trigger] kinds@.take(a + 1).contains(k) == (kinds@.take(a as int).contains(k) || k == kind) by {
                lemma_seq_contains_after_push(kinds@.take(a as int), kind, k);
            }
            let p = seq!["target"@, name@];
            lemma_subtree_subtree(m, p, seq![dep_kind_section(kind)]);
            assert(p + seq![dep_kind_section(kind)] =~= seq!["target"@, name@, dep_kind_section(kind)]);
            lemma_subtree_root(m, seq!["target"@, name@, dep_kind_section(kind)]);
        }
        match dependency_table(t_item, kind) {
            Some(t) => collect_workspace_inherited_from_table(t, kind, Some(name), out),
            None => {},
        }
        a = a + 1;
    }
    proof {
        assert(kinds@.take(3) =~= kinds@);
        assert forall|k: DepKind| #[trigger] kinds@.contains(k) by {
            match k {
                DepKind::Normal => assert(kinds@[0] == k),
                DepKind::Dev => assert(kinds@[1] == k),
                DepKind::Build => assert(kinds@[2] == k),
            }
        }
    }
}

/// The texts of the keys of a list of pairs.
pub open spec fn key_views<T>(v: Seq<(String, T)>) -> Seq<Seq<char>> {
    v.map_values(|e: (String, T)| e.0@)
}

/// The index of the first text `n` in `names`.
pub open spec fn first_index_of(names: Seq<Seq<char>>, n: Seq<char>) -> Option<int>
    decreases names.len(),
{
    if names.len() == 0 {
        None
    } else {
        match first_index_of(names.drop_last(), n) {
            Some(i) => Some(i),
            None => if names.last() == n {
                Some(names.len() - 1)
            } else {
                None
            },
        }
    }
}

/// What the first index of `n` is, is decided in the prefix that holds it.
proof fn lemma_first_index_prefix(names: Seq<Seq<char>>, n: Seq<char>, k: int)
    requires
        0 <= k <= names.len(),
        first_index_of(names.take(k), n) is Some,
    ensures
        first_index_of(names, n) == first_index_of(names.take(k), n),
    decreases names.len() - k,
{
    if k < names.len() {
        assert(names.take(k + 1).drop_last() =~= names.take(k));
        lemma_first_index_prefix(names, n, k + 1);
    } else {
        assert(names.take(k) =~= names);
    }
}

/// The first index of `n` holds `n`; none before it does.
proof fn lemma_first_index(names: Seq<Seq<char>>, n: Seq<char>)
    ensures
        match first_index_of(names, n) {
            Some(i) => 0 <= i < names.len() && names[i] == n && forall|j: int| 0 <= j < i ==> names[j] != n,
            None => !names.contains(n),
        },
    decreases names.len(),
{
    if names.len() > 0 {
        let d = names.drop_last();
        lemma_first_index(d, n);
        match first_index_of(d, n) {
            Some(i) => {
                assert(names[i] == d[i]);
                assert forall|j: int| 0 <= j < i implies names[j] != n by {
                    assert(names[j] == d[j]);
                }
            },
            None => {
                assert forall|j: int| 0 <= j < names.len() - 1 implies names[j] != n by {
                    assert(names[j] == d[j]);
                    if names[j] == n {
                        assert(d.contains(n));
                    }
                }
                if names.last() != n && names.contains(n) {
                    let j = choose|j: int| 0 <= j < names.len() && names[j] == n;
                    assert(j < names.len() - 1);
                }
            },
        }
    }
}

/// The first entry keyed `n`.
fn find_named<T>(v: &Vec<(String, T)>, n: &str) -> (r: Option<usize>)
    ensures
        match r {
            Some(i) => first_index_of(key_views(v@), n@) == Some(i as int) && i < v@.len(),
            None => first_index_of(key_views(v@), n@) is None,
        },
{
    let ghost keys = key_views(v@);
    let mut i: usize = 0;
    while i < v.len()
        invariant
            i <= v@.len(),
            keys == key_views(v@),
            first_index_of(keys.take(i as int), n@) is None,
        decreases v@.len() - i,
    {
        proof {
            assert(keys.take(i + 1).drop_last() =~= keys.take(i as int));
        }
        if str_eq(v[i].0.as_str(), n) {
            proof {
                lemma_first_index_prefix(keys, n@, i + 1);
            }
            return Some(i);
        }
        i = i + 1;
    }
    proof {
        assert(keys.take(v@.len() as int) =~= keys);
    }
    None
}

/// The number of dependencies of member `a`.
pub open spec fn dep_count(pkgs: Seq<MetaPackage>, ms: Seq<int>, a: int) -> int {
    pkgs[ms[a]].dependencies@.len() as int
}

/// Whether the dependency at `(a, b)` becomes a usage: it is taken from
/// crates.io and has a name, which a package URL needs.
pub open spec fn is_registry_dep(pkgs: Seq<MetaPackage>, ms: Seq<int>, a: int, b: int) -> bool {
    from_crates_io(opt_chars(dep_at(pkgs, ms, a, b).source)) && dep_at(pkgs, ms, a, b).name@.len() > 0
}

/// The places of the dependencies that become usages, in order, among
/// those before member `a`'s dependency `b`.
pub open spec fn usage_places(pkgs: Seq<MetaPackage>, ms: Seq<int>, a: int, b: int) -> Seq<(int, int)>
    decreases a, b,
{
    if a <= 0 && b <= 0 {
        seq![]
    } else if b <= 0 {
        usage_places(pkgs, ms, a - 1, dep_count(pkgs, ms, a - 1))
    } else {
        let prev = usage_places(pkgs, ms, a, b - 1);
        if is_registry_dep(pkgs, ms, a, b - 1) {
            prev.push((a, b - 1))
        } else {
            prev
        }
    }
}

/// The name of the dependency at a place.
pub open spec fn place_name(pkgs: Seq<MetaPackage>, ms: Seq<int>, p: (int, int)) -> Seq<char> {
    dep_at(pkgs, ms, p.0, p.1).name@
}

/// The names of the places, each once, in the order first met.
pub open spec fn first_seen_names(pkgs: Seq<MetaPackage>, ms: Seq<int>, places: Seq<(int, int)>) -> Seq<Seq<char>>
    decreases places.len(),
{
    if places.len() == 0 {
        seq![]
    } else {
        let prev = first_seen_names(pkgs, ms, places.drop_last());
        let n = place_name(pkgs, ms, places.last());
        if prev.contains(n) {
            prev
        } else {
            prev.push(n)
        }
    }
}

/// What a usage is, as plain values.
pub open spec fn usage_view(u: Usage) -> (UnitView, Seq<ComparatorView>, DepKind, Option<Seq<char>>) {
    (u.unit@, u.req@, u.kind, opt_chars(u.rename))
}

pub open spec fn usage_views(us: Seq<Usage>) -> Seq<(UnitView, Seq<ComparatorView>, DepKind, Option<Seq<char>>)> {
    us.map_values(|u: Usage| usage_view(u))
}

/// The inherited entries recorded for a manifest: the first record for its
/// path.
pub open spec fn inherited_for(inh: Seq<(String, InheritedDeps)>, path: Seq<char>) -> Option<InheritedDeps> {
    match first_index_of(key_views(inh), path) {
        Some(i) => Some(inh[i].1),
        None => None,
    }
}

/// The unit of the dependency at `(a, b)`: the workspace where the member's
/// manifest inherits it, the member's project otherwise.
pub open spec fn unit_at(
    pkgs: Seq<MetaPackage>,
    ms: Seq<int>,
    inh: Seq<(String, InheritedDeps)>,
    root: Seq<char>,
    a: int,
    b: int,
) -> UnitView {
    let member = pkgs[ms[a]];
    match inherited_for(inh, member.manifest_path@) {
        Some(d) => if inherits(d, dep_at(pkgs, ms, a, b)) {
            UnitView::Workspace { manifest: root }
        } else {
            UnitView::Project { manifest: member.manifest_path@, name: member.name@ }
        },
        None => UnitView::Project { manifest: member.manifest_path@, name: member.name@ },
    }
}

/// The usage of the dependency at a place.
pub open spec fn usage_at(
    pkgs: Seq<MetaPackage>,
    ms: Seq<int>,
    inh: Seq<(String, InheritedDeps)>,
    root: Seq<char>,
    p: (int, int),
) -> (UnitView, Seq<ComparatorView>, DepKind, Option<Seq<char>>) {
    let d = dep_at(pkgs, ms, p.0, p.1);
    (unit_at(pkgs, ms, inh, root, p.0, p.1), d.req@, dep_kind_of_spec(d.kind), opt_chars(d.rename))
}

/// The usages of the crate `n`, in order of their places.
pub open spec fn usages_named(
    pkgs: Seq<MetaPackage>,
    ms: Seq<int>,
    inh: Seq<(String, InheritedDeps)>,
    root: Seq<char>,
    places: Seq<(int, int)>,
    n: Seq<char>,
) -> Seq<(UnitView, Seq<ComparatorView>, DepKind, Option<Seq<char>>)>
    decreases places.len(),
{
    if places.len() == 0 {
        seq![]
    } else {
        let prev = usages_named(pkgs, ms, inh, root, places.drop_last(), n);
        if place_name(pkgs, ms, places.last()) == n {
            prev.push(usage_at(pkgs, ms, inh, root, places.last()))
        } else {
            prev
        }
    }
}

/// A crate not met among the places has no usages there.
proof fn lemma_unseen_no_usages(
    pkgs: Seq<MetaPackage>,
    ms: Seq<int>,
    inh: Seq<(String, InheritedDeps)>,
    root: Seq<char>,
    places: Seq<(int, int)>,
    n: Seq<char>,
)
    requires
        !first_seen_names(pkgs, ms, places).contains(n),
    ensures
        usages_named(pkgs, ms, inh, root, places, n) == Seq::<(UnitView, Seq<ComparatorView>, DepKind, Option<Seq<char>>)>::empty(),
    decreases places.len(),
{
    if places.len() > 0 {
        let prev = first_seen_names(pkgs, ms, places.drop_last());
        if !prev.contains(place_name(pkgs, ms, places.last())) {
            lemma_seq_contains_after_push(prev, place_name(pkgs, ms, places.last()), n);
        }
        lemma_unseen_no_usages(pkgs, ms, inh, root, places.drop_last(), n);
    }
}

/// The versions published for the crate `n`: the first entry's.
pub open spec fn versions_for(v: Seq<(String, Vec<PackageVersion>)>, n: Seq<char>) -> Seq<PackageVersion> {
    match first_index_of(key_views(v), n) {
        Some(i) => v[i].1@,
        None => seq![],
    }
}

/// The repository of the crate `n`, where its metadata gives one.
pub open spec fn meta_repository(cm: Seq<(String, CrateMeta)>, n: Seq<char>) -> Option<Seq<char>> {
    match first_index_of(key_views(cm), n) {
        Some(i) => opt_chars(cm[i].1.repository),
        None => None,
    }
}

/// The homepage of the crate `n`, where its metadata gives one.
pub open spec fn meta_homepage(cm: Seq<(String, CrateMeta)>, n: Seq<char>) -> Option<Seq<char>> {
    match first_index_of(key_views(cm), n) {
        Some(i) => opt_chars(cm[i].1.homepage),
        None => None,
    }
}

pub open spec fn package_names(ps: Seq<Package>) -> Seq<Seq<char>> {
    ps.map_values(|p: Package| p.purl.name_view())
}

/// The package `p` is the crate `p`'s name as the places give it.
pub open spec fn package_built(
    pkgs: Seq<MetaPackage>,
    ms: Seq<int>,
    inh: Seq<(String, InheritedDeps)>,
    root: Seq<char>,
    vin: Seq<(String, Vec<PackageVersion>)>,
    cm: Seq<(String, CrateMeta)>,
    places: Seq<(int, int)>,
    p: Package,
) -> bool {
    let n = p.purl.name_view();
    &&& p.purl.type_view() == "cargo"@
    &&& usage_views(p.usages@) == usages_named(pkgs, ms, inh, root, places, n)
    &&& p.versions@ == versions_for(vin, n)
    &&& opt_chars(p.repository) == meta_repository(cm, n)
    &&& opt_chars(p.homepage) == meta_homepage(cm, n)
}

/// A package URL of type `cargo` for a crate name.
fn cargo_purl(name: &str) -> (r: Option<Purl>)
    ensures
        r is Some <==> name@.len() > 0,
        r matches Some(p) ==> p.type_view() == "cargo"@ && p.name_view() == name@,
{
    let r = Purl::new("cargo", name);
    proof {
        reveal_strlit("cargo");
        assert(ascii_lower("cargo"@) =~= "cargo"@);
    }
    r
}

/// The entry of crate `n` among the packages built so far.
fn find_package_named(packages: &Vec<Package>, n: &str) -> (r: Option<usize>)
    ensures
        match r {
            Some(i) => i < packages@.len() && package_names(packages@)[i as int] == n@,
            None => !package_names(packages@).contains(n@),
        },
{
    let mut i: usize = 0;
    while i < packages.len()
        invariant
            i <= packages@.len(),
            forall|j: int| 0 <= j < i ==> packages@[j].purl.name_view() != n@,
        decreases packages@.len() - i,
    {
        if str_eq(packages[i].purl.name(), n) {
            return Some(i);
        }
        i = i + 1;
    }
    proof {
        if package_names(packages@).contains(n@) {
            let j = choose|j: int| 0 <= j < packages@.len() && package_names(packages@)[j] == n@;
            assert(packages@[j].purl.name_view() == n@);
        }
    }
    None
}

/// Moves out the versions of the crate `n`: the first entry's, leaving it
/// empty.
fn take_versions(versions: &mut Vec<(String, Vec<PackageVersion>)>, n: &str) -> (r: Vec<PackageVersion>)
    ensures
        r@ == versions_for(old(versions)@, n@),
        final(versions)@.len() == old(versions)@.len(),
        forall|j: int| 0 <= j < old(versions)@.len() ==> (#[trigger] final(versions)@[j]).0 == old(versions)@[j].0,
        forall|j: int|
            0 <= j < old(versions)@.len() && old(versions)@[j].0@ != n@ ==> (#[trigger] final(versions)@[j]) == old(versions)@[j],
{
    match find_named(versions, n) {
        Some(i) => {
            proof {
                lemma_first_index(key_views(versions@), n@);
            }
            let mut taken: Vec<PackageVersion> = Vec::new();
            let mut entry = versions.remove(i);
            std::mem::swap(&mut taken, &mut entry.1);
            versions.insert(i, entry);
            proof {
                assert forall|j: int| 0 <= j < old(versions)@.len() && j != i implies (#[trigger] versions@[j]) == old(versions)@[j] by {
                    if j < i {
                        assert(versions@[j] == old(versions)@.remove(i as int)[j]);
                    } else {
                        assert(versions@[j] == old(versions)@.remove(i as int)[j - 1]);
                    }
                }
                assert(key_views(old(versions)@)[i as int] == old(versions)@[i as int].0@);
            }
            taken
        },
        None => Vec::new(),
    }
}

/// The metadata of the crate `n`: the first entry's, or none.
fn meta_for(cm: &Vec<(String, CrateMeta)>, n: &str) -> (r: (Option<String>, Option<String>))
    ensures
        opt_chars(r.0) == meta_repository(cm@, n@),
        opt_chars(r.1) == meta_homepage(cm@, n@),
{
    match find_named(cm, n) {
        Some(i) => (copy_opt_string(&cm[i].1.repository), copy_opt_string(&cm[i].1.homepage)),
        None => (None, None),
    }
}

/// The inherited entries recorded for a manifest path.
fn inherited_lookup<'a>(inh: &'a Vec<(String, InheritedDeps)>, path: &str) -> (r: Option<&'a InheritedDeps>)
    ensures
        match r {
            Some(d) => inherited_for(inh@, path@) == Some(*d),
            None => inherited_for(inh@, path@) is None,
        },
{
    match find_named(inh, path) {
        Some(i) => Some(&inh[i].1),
        None => None,
    }
}

/// Each crate is met once.
proof fn lemma_first_seen_distinct(pkgs: Seq<MetaPackage>, ms: Seq<int>, places: Seq<(int, int)>)
    ensures
        first_seen_names(pkgs, ms, places).no_duplicates(),
    decreases places.len(),
{
    if places.len() > 0 {
        lemma_first_seen_distinct(pkgs, ms, places.drop_last());
        let prev = first_seen_names(pkgs, ms, places.drop_last());
        let n = place_name(pkgs, ms, places.last());
        if !prev.contains(n) {
            assert forall|i: int, j: int| 0 <= i < j < prev.push(n).len() implies prev.push(n)[i] != prev.push(n)[j] by {
                if j == prev.len() {
                    assert(prev[i] == prev.push(n)[i]);
                }
            }
        }
    }
}

/// One more place: its crate's usages grow by its usage, and its crate is
/// met if it was not yet.
proof fn lemma_places_push(
    pkgs: Seq<MetaPackage>,
    ms: Seq<int>,
    inh: Seq<(String, InheritedDeps)>,
    root: Seq<char>,
    places: Seq<(int, int)>,
    x: (int, int),
)
    ensures
        forall|m: Seq<char>|
            #[trigger] usages_named(pkgs, ms, inh, root, places.push(x), m) == if place_name(pkgs, ms, x) == m {
                usages_named(pkgs, ms, inh, root, places, m).push(usage_at(pkgs, ms, inh, root, x))
            } else {
                usages_named(pkgs, ms, inh, root, places, m)
            },
        first_seen_names(pkgs, ms, places.push(x)) == if first_seen_names(pkgs, ms, places).contains(place_name(pkgs, ms, x)) {
            first_seen_names(pkgs, ms, places)
        } else {
            first_seen_names(pkgs, ms, places).push(place_name(pkgs, ms, x))
        },
{
    assert(places.push(x).drop_last() =~= places);
}

/// Builds the packages of the workspace: one per crate that its members take
/// from crates.io, in the order first met, with every usage of it in the
/// members' order, the versions published for it and its metadata. A
/// dependency's unit is the workspace where the member's manifest inherits
/// it, the member otherwise.
pub fn build_packages(
    meta: &Metadata,
    members: &Vec<usize>,
    versions: Vec<(String, Vec<PackageVersion>)>,
    workspace_root_manifest: &str,
    crate_meta: &Vec<(String, CrateMeta)>,
    inherited: &Vec<(String, InheritedDeps)>,
) -> (r: Vec<Package>)
    requires
        forall|i: int| 0 <= i < members@.len() ==> #[trigger] members@[i] < meta.packages@.len(),
    ensures
        package_names(r@) == first_seen_names(
            meta.packages@,
            index_views(members@),
            usage_places(meta.packages@, index_views(members@), members@.len() as int, 0),
        ),
        package_names(r@).no_duplicates(),
        forall|i: int|
            0 <= i < r@.len() ==> package_built(
                meta.packages@,
                index_views(members@),
                inherited@,
                workspace_root_manifest@,
                versions@,
                crate_meta@,
                usage_places(meta.packages@, index_views(members@), members@.len() as int, 0),
                #[trigger] r@[i],
            ),
{
    let ghost pkgs = meta.packages@;
    let ghost ms = index_views(members@);
    let ghost inh = inherited@;
    let ghost root = workspace_root_manifest@;
    let ghost vin = versions@;
    let ghost cm = crate_meta@;
    let mut versions = versions;
    let mut packages: Vec<Package> = Vec::new();
    let mut a: usize = 0;
    while a < members.len()
        invariant
            a <= members@.len(),
            pkgs == meta.packages@,
            ms == index_views(members@),
            inh == inherited@,
            root == workspace_root_manifest@,
            cm == crate_meta@,
            forall|i: int| 0 <= i < members@.len() ==> #[trigger] members@[i] < meta.packages@.len(),
            package_names(packages@) == first_seen_names(pkgs, ms, usage_places(pkgs, ms, a as int, 0)),
            forall|i: int|
                0 <= i < packages@.len() ==> package_built(pkgs, ms, inh, root, vin, cm, usage_places(pkgs, ms, a as int, 0), #[trigger] packages@[i]),
            versions@.len() == vin.len(),
            forall|j: int| 0 <= j < vin.len() ==> (#[trigger] versions@[j]).0 == vin[j].0,
            forall|j: int|
                0 <= j < vin.len() && !package_names(packages@).contains(vin[j].0@) ==> #[trigger] versions@[j] == vin[j],
        decreases members@.len() - a,
    {
        let member = &meta.packages[members[a]];
        assert(*member == pkgs[ms[a as int]]);
        let member_inh = inherited_lookup(inherited, member.manifest_path.as_str());
        let mut b: usize = 0;
        while b < member.dependencies.len()
            invariant
                a < members@.len(),
                b <= member.dependencies@.len(),
                pkgs == meta.packages@,
                ms == index_views(members@),
                inh == inherited@,
                root == workspace_root_manifest@,
                cm == crate_meta@,
                *member == pkgs[ms[a as int]],
                match member_inh {
                    Some(d) => inherited_for(inh, member.manifest_path@) == Some(*d),
                    None => inherited_for(inh, member.manifest_path@) is None,
                },
                package_names(packages@) == first_seen_names(pkgs, ms, usage_places(pkgs, ms, a as int, b as int)),
                forall|i: int|
                    0 <= i < packages@.len() ==> package_built(pkgs, ms, inh, root, vin, cm, usage_places(pkgs, ms, a as int, b as int), #[trigger] packages@[i]),
                versions@.len() == vin.len(),
                forall|j: int| 0 <= j < vin.len() ==> (#[trigger] versions@[j]).0 == vin[j].0,
                forall|j: int|
                    0 <= j < vin.len() && !package_names(packages@).contains(vin[j].0@) ==> #[trigger] versions@[j] == vin[j],
            decreases member.dependencies@.len() - b,
        {
            let dep = &member.dependencies[b];
            let ghost places = usage_places(pkgs, ms, a as int, b as int);
            let ghost x = (a as int, b as int);
            proof {
                assert(*dep == dep_at(pkgs, ms, a as int, b as int));
                lemma_places_push(pkgs, ms, inh, root, places, x);
            }
            if is_crates_io(&dep.source) {
                match cargo_purl(dep.name.as_str()) {
                    Some(purl) => {
                        let in_workspace = match member_inh {
                            Some(d) => d.contains(dep),
                            None => false,
                        };
                        let unit = if in_workspace {
                            Unit::Workspace { manifest: workspace_root_manifest.to_owned() }
                        } else {
                            Unit::Project { manifest: member.manifest_path.clone(), name: member.name.clone() }
                        };
                        let usage = Usage {
                            unit,
                            req: dep.req.copy(),
                            kind: dep_kind_of(dep.kind),
                            rename: copy_opt_string(&dep.rename),
                        };
                        assert(usage_view(usage) == usage_at(pkgs, ms, inh, root, x));
                        let ghost before = packages@;
                        match find_package_named(&packages, dep.name.as_str()) {
                            Some(i) => {
                                let mut usages: Vec<Usage> = Vec::new();
                                std::mem::swap(&mut usages, &mut packages[i].usages);
                                let ghost old_usages = usages@;
                                usages.push(usage);
                                packages[i].usages = usages;
                                proof {
                                    assert(package_names(packages@) =~= package_names(before));
                                    assert(usage_views(packages@[i as int].usages@) =~= usage_views(old_usages).push(usage_view(usage)));
                                    assert forall|k: int| 0 <= k < packages@.len() implies package_built(pkgs, ms, inh, root, vin, cm, places.push(x), #[trigger] packages@[k]) by {
                                        assert(package_names(before)[k] == before[k].purl.name_view());
                                        if k != i {
                                            lemma_first_seen_distinct(pkgs, ms, places);
                                            assert(package_names(before)[i as int] == before[i as int].purl.name_view());
                                            assert(packages@[k] == before[k]);
                                            assert(package_built(pkgs, ms, inh, root, vin, cm, places, before[k]));
                                        } else {
                                            assert(package_built(pkgs, ms, inh, root, vin, cm, places, before[k]));
                                            assert(place_name(pkgs, ms, x) == before[k].purl.name_view());
                                        }
                                    }
                                    assert(first_seen_names(pkgs, ms, places).contains(place_name(pkgs, ms, x))) by {
                                        assert(package_names(before)[i as int] == dep.name@);
                                    }
                                }
                            },
                            None => {
                                let ghost vcur = versions@;
                                proof {
                                    assert(key_views(vcur) =~= key_views(vin));
                                    lemma_first_index(key_views(vin), dep.name@);
                                    match first_index_of(key_views(vin), dep.name@) {
                                        Some(j) => {
                                            assert(key_views(vin)[j] == vin[j].0@);
                                        },
                                        None => {},
                                    }
                                    assert(versions_for(vcur, dep.name@) == versions_for(vin, dep.name@));
                                    lemma_unseen_no_usages(pkgs, ms, inh, root, places, dep.name@);
                                }
                                let vs = take_versions(&mut versions, dep.name.as_str());
                                let (repository, homepage) = meta_for(crate_meta, dep.name.as_str());
                                let mut usages: Vec<Usage> = Vec::new();
                                usages.push(usage);
                                packages.push(Package { purl, usages, versions: vs, repository, homepage });
                                proof {
                                    assert(package_names(packages@) =~= package_names(before).push(dep.name@));
                                    assert(usage_views(packages@[before.len() as int].usages@) =~= seq![usage_view(usage)]);
                                    assert(usage_views(packages@[before.len() as int].usages@) =~= usages_named(pkgs, ms, inh, root, places, dep.name@).push(usage_view(usage)));
                                    assert forall|k: int| 0 <= k < packages@.len() implies package_built(pkgs, ms, inh, root, vin, cm, places.push(x), #[trigger] packages@[k]) by {
                                        if k < before.len() {
                                            assert(packages@[k] == before[k]);
                                            assert(package_built(pkgs, ms, inh, root, vin, cm, places, before[k]));
                                            assert(package_names(before)[k] == before[k].purl.name_view());
                                        }
                                    }
                                    assert forall|j: int|
                                        0 <= j < vin.len() && !package_names(packages@).contains(vin[j].0@) implies #[trigger] versions@[j] == vin[j] by {
                                        lemma_seq_contains_after_push(package_names(before), dep.name@, vin[j].0@);
                                    }
                                }
                            },
                        }
                    },
                    None => {},
                }
            }
            proof {
                assert(usage_places(pkgs, ms, a as int, b + 1) == if is_registry_dep(pkgs, ms, a as int, b as int) {
                    places.push(x)
                } else {
                    places
                });
            }
            b = b + 1;
        }
        proof {
            assert(usage_places(pkgs, ms, a + 1, 0) == usage_places(pkgs, ms, a as int, dep_count(pkgs, ms, a as int)));
        }
        a = a + 1;
    }
    proof {
        lemma_first_seen_distinct(pkgs, ms, usage_places(pkgs, ms, members@.len() as int, 0));
    }
    packages
}

/// The names of the crates that the workspace's members take from
/// crates.io, each once: the crates whose published versions are needed.
pub fn registry_crate_names(meta: &Metadata) -> (r: Vec<String>)
    ensures
        string_views(r@).no_duplicates(),
        forall|n: Seq<char>|
            #[trigger] string_views(r@).contains(n) <==> uses_crates_io_name(
                meta.packages@,
                member_indices(meta.packages@, string_views(meta.workspace_members@)),
                n,
            ),
{
    let members = workspace_members(meta);
    proof {
        assert(index_views(members@) == member_indices(meta.packages@, string_views(meta.workspace_members@)));
    }
    collect_crates_io_deps(meta, &members)
}

/// The manifest text read for a path: the first one recorded.
pub open spec fn text_for(texts: Seq<(String, String)>, path: Seq<char>) -> Option<Seq<char>> {
    match first_index_of(key_views(texts), path) {
        Some(i) => Some(texts[i].1@),
        None => None,
    }
}

/// The inherited entries recorded for each member are those its manifest
/// text says; a member whose manifest could not be read inherits nothing.
pub open spec fn inherited_from_texts(
    inh: Seq<(String, InheritedDeps)>,
    pkgs: Seq<MetaPackage>,
    ms: Seq<int>,
    texts: Seq<(String, String)>,
) -> bool {
    forall|a: int|
        #![trigger ms[a]]
        0 <= a < ms.len() ==> {
            let path = pkgs[ms[a]].manifest_path@;
            &&& inherited_for(inh, path) is Some
            &&& forall|k: DepKind, n: Seq<char>|
                #[trigger] inherited_for(inh, path)->Some_0.root_view().contains((k, n)) <==> match text_for(texts, path) {
                    Some(t) => manifest_inherits_in_root(t, k, n),
                    None => false,
                }
            &&& forall|k: DepKind, n: Seq<char>, u: Seq<char>|
                #[trigger] inherited_for(inh, path)->Some_0.target_view().contains((k, n, u)) <==> match text_for(texts, path) {
                    Some(t) => manifest_inherits_in_target(t, k, n, u),
                    None => false,
                }
        }
}

/// The packages `r` are those built from the metadata with the inherited
/// entries `inh` that the manifest texts say and the crate metadata `cm`
/// taken from the dependency graph.
pub open spec fn resolved_with(
    meta: Metadata,
    versions: Seq<(String, Vec<PackageVersion>)>,
    root_manifest: Seq<char>,
    texts: Seq<(String, String)>,
    r: Seq<Package>,
    inh: Seq<(String, InheritedDeps)>,
    cm: Seq<(String, CrateMeta)>,
) -> bool {
    let pkgs = meta.packages@;
    let ms = member_indices(pkgs, string_views(meta.workspace_members@));
    let places = usage_places(pkgs, ms, ms.len() as int, 0);
    &&& inherited_from_texts(inh, pkgs, ms, texts)
    &&& meta_names(cm).no_duplicates()
    &&& forall|n: Seq<char>| #[trigger] meta_names(cm).contains(n) <==> exists|j: int| crates_io_named(pkgs, j, n)
    &&& forall|i: int| 0 <= i < cm.len() ==> meta_entry_from(pkgs, #[trigger] cm[i])
    &&& package_names(r) == first_seen_names(pkgs, ms, places)
    &&& forall|i: int| 0 <= i < r.len() ==> package_built(pkgs, ms, inh, root_manifest, versions, cm, places, #[trigger] r[i])
}

/// The text recorded for a manifest path.
fn text_lookup<'a>(texts: &'a Vec<(String, String)>, path: &str) -> (r: Option<&'a String>)
    ensures
        match r {
            Some(t) => text_for(texts@, path@) == Some(t@),
            None => text_for(texts@, path@) is None,
        },
{
    match find_named(texts, path) {
        Some(i) => Some(&texts[i].1),
        None => None,
    }
}

/// The packages of a workspace from what cargo reported of it: `versions`
/// holds the versions published for its crates, `root_manifest` is the path
/// of the workspace's root manifest, and `manifest_texts` holds the text of
/// each member's manifest that could be read.
pub fn resolve_packages(
    meta: &Metadata,
    versions: Vec<(String, Vec<PackageVersion>)>,
    root_manifest: &str,
    manifest_texts: &Vec<(String, String)>,
) -> (r: Vec<Package>)
    ensures
        exists|inh: Seq<(String, InheritedDeps)>, cm: Seq<(String, CrateMeta)>|
            #[trigger] resolved_with(*meta, versions@, root_manifest@, manifest_texts@, r@, inh, cm),
{
    let members = workspace_members(meta);
    let ghost pkgs = meta.packages@;
    let ghost ms = index_views(members@);
    let crate_meta = crate_meta_from_packages(&meta.packages);
    let mut inherited: Vec<(String, InheritedDeps)> = Vec::new();
    let mut a: usize = 0;
    while a < members.len()
        invariant
            a <= members@.len(),
            pkgs == meta.packages@,
            ms == index_views(members@),
            forall|i: int| 0 <= i < members@.len() ==> #[trigger] members@[i] < meta.packages@.len(),
            inherited@.len() == a,
            forall|x: int|
                #![trigger inherited@[x]]
                0 <= x < a ==> {
                    let path = pkgs[ms[x]].manifest_path@;
                    &&& inherited@[x].0@ == path
                    &&& forall|k: DepKind, n: Seq<char>|
                        #[trigger] inherited@[x].1.root_view().contains((k, n)) <==> match text_for(manifest_texts@, path) {
                            Some(t) => manifest_inherits_in_root(t, k, n),
                            None => false,
                        }
                    &&& forall|k: DepKind, n: Seq<char>, u: Seq<char>|
                        #[trigger] inherited@[x].1.target_view().contains((k, n, u)) <==> match text_for(manifest_texts@, path) {
                            Some(t) => manifest_inherits_in_target(t, k, n, u),
                            None => false,
                        }
                },
        decreases members@.len() - a,
    {
        let path = &meta.packages[members[a]].manifest_path;
        let deps = match text_lookup(manifest_texts, path.as_str()) {
            Some(t) => workspace_inherited_deps(t.as_str()),
            None => InheritedDeps::new(),
        };
        inherited.push((path.clone(), deps));
        a = a + 1;
    }
    proof {
        assert forall|x: int| #![trigger ms[x]] 0 <= x < ms.len() implies {
            let path = pkgs[ms[x]].manifest_path@;
            &&& inherited_for(inherited@, path) is Some
            &&& forall|k: DepKind, n: Seq<char>|
                #[trigger] inherited_for(inherited@, path)->Some_0.root_view().contains((k, n)) <==> match text_for(manifest_texts@, path) {
                    Some(t) => manifest_inherits_in_root(t, k, n),
                    None => false,
                }
            &&& forall|k: DepKind, n: Seq<char>, u: Seq<char>|
                #[trigger] inherited_for(inherited@, path)->Some_0.target_view().contains((k, n, u)) <==> match text_for(manifest_texts@, path) {
                    Some(t) => manifest_inherits_in_target(t, k, n, u),
                    None => false,
                }
        } by {
            let path = pkgs[ms[x]].manifest_path@;
            assert(key_views(inherited@)[x] == path);
            lemma_first_index(key_views(inherited@), path);
            let y = first_index_of(key_views(inherited@), path)->Some_0;
            assert(inherited@[y] == inherited@[y]);
            assert(key_views(inherited@)[y] == inherited@[y].0@);
        }
    }
    let ghost vin = versions@;
    let r = build_packages(meta, &members, versions, root_manifest, &crate_meta, &inherited);
    proof {
        assert(inherited_from_texts(inherited@, pkgs, ms, manifest_texts@));
        assert(resolved_with(*meta, vin, root_manifest@, manifest_texts@, r@, inherited@, crate_meta@));
    }
    r
}

} // verus!
