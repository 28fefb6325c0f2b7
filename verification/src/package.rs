//! The packages that a project uses and the versions a registry publishes.

use vstd::prelude::*;
use crate::semver_model::{SemReq, SemVersion, ComparatorView, VersionView};
use crate::text::{chars_of, string_of, extend_chars, opt_chars};

verus! {

/// A unit of package management, such as a project, a workspace, or a global
/// environment. Manifest paths are kept as text.
#[derive(Debug, Clone, PartialEq, Eq, Hash)]
pub enum Unit {
    /// A single project manifest (e.g. `crates/foo/Cargo.toml` `[dependencies]`)
    Project { manifest: String, name: String },
    /// The workspace root manifest (e.g. `Cargo.toml` `[workspace.dependencies]`)
    Workspace { manifest: String },
    /// A globally installed package
    Global,
}

/// The plain content of a unit.
pub enum UnitView {
    Project { manifest: Seq<char>, name: Seq<char> },
    Workspace { manifest: Seq<char> },
    Global,
}

impl View for Unit {
    type V = UnitView;

    open spec fn view(&self) -> UnitView {
        match self {
            Unit::Project { manifest, name } => UnitView::Project { manifest: manifest@, name: name@ },
            Unit::Workspace { manifest } => UnitView::Workspace { manifest: manifest@ },
            Unit::Global => UnitView::Global,
        }
    }
}

/// `"workspace"`
pub open spec fn workspace_word() -> Seq<char> {
    seq!['w', 'o', 'r', 'k', 's', 'p', 'a', 'c', 'e']
}

/// `"global"`
pub open spec fn global_word() -> Seq<char> {
    seq!['g', 'l', 'o', 'b', 'a', 'l']
}

/// `" (workspace)"`
pub open spec fn workspace_suffix() -> Seq<char> {
    seq![' ', '('] + workspace_word() + seq![')']
}

/// The label of a workspace whose root directory has the given name:
/// `"<dir> (workspace)"`, or `"workspace"` when the name is unknown.
pub open spec fn workspace_label_spec(dir: Option<Seq<char>>) -> Seq<char> {
    match dir {
        Some(n) => n + workspace_suffix(),
        None => workspace_word(),
    }
}

pub fn workspace_word_string() -> (r: String)
    ensures
        r@ == workspace_word(),
{
    let v: Vec<char> = vec!['w', 'o', 'r', 'k', 's', 'p', 'a', 'c', 'e'];
    assert(v@ =~= workspace_word());
    string_of(v.as_slice())
}

pub fn global_word_string() -> (r: String)
    ensures
        r@ == global_word(),
{
    let v: Vec<char> = vec!['g', 'l', 'o', 'b', 'a', 'l'];
    assert(v@ =~= global_word());
    string_of(v.as_slice())
}

/// The label of a workspace from the name of its root directory.
pub fn workspace_label(dir: Option<String>) -> (r: String)
    ensures
        r@ == workspace_label_spec(match dir {
            Some(d) => Some(d@),
            None => None,
        }),
{
    match dir {
        Some(d) => {
            let mut out = chars_of(d.as_str());
            let suffix: Vec<char> = vec![' ', '(', 'w', 'o', 'r', 'k', 's', 'p', 'a', 'c', 'e', ')'];
            extend_chars(&mut out, &suffix);
            assert(out@ =~= d@ + workspace_suffix());
            string_of(out.as_slice())
        },
        None => workspace_word_string(),
    }
}

/// Whether a text is a relative path of one component on every platform:
/// not empty, and without `/`, `\\` or `:`.
pub open spec fn single_component(path: Seq<char>) -> bool {
    path.len() > 0 && forall|i: int| 0 <= i < path.len() ==> #[trigger] path[i] != '/' && path[i] != '\\' && path[i] != ':'
}

/// The place of the last `/` in a text, if it has one.
pub open spec fn last_slash(p: Seq<char>) -> Option<int>
    decreases p.len(),
{
    if p.len() == 0 {
        None
    } else if p.last() == '/' {
        Some(p.len() - 1)
    } else {
        last_slash(p.drop_last())
    }
}

/// A component that every platform reads as a plain name: one component,
/// and neither `.` nor `..`.
pub open spec fn normal_segment(s: Seq<char>) -> bool {
    single_component(s) && s != seq!['.'] && s != seq!['.', '.']
}

/// A path made of plain names joined by `/`, relative or starting with one
/// `/`: every platform splits it at its `/`s, and none reads a prefix in it.
pub open spec fn simple_path(p: Seq<char>) -> bool
    decreases p.len(),
{
    match last_slash(p) {
        None => normal_segment(p),
        Some(i) => 0 <= i < p.len() && normal_segment(p.skip(i + 1)) && (i == 0 || simple_path(p.take(i))),
    }
}

/// The parent of a simple path: the text before its last `/` (the root
/// `/` where that is the first character), or the empty path.
pub open spec fn parent_text(p: Seq<char>) -> Seq<char> {
    match last_slash(p) {
        None => seq![],
        Some(i) => if i == 0 {
            seq!['/']
        } else {
            p.take(i)
        },
    }
}

/// The last component of a simple path: the text after its last `/`.
pub open spec fn file_name_text(p: Seq<char>) -> Seq<char> {
    match last_slash(p) {
        None => p,
        Some(i) => p.skip(i + 1),
    }
}

/// The directory name of a workspace whose root manifest is at `m`, where
/// every platform gives the same: none for the empty path or a bare file
/// name; the last name of the parent of a simple path whose parent is not
/// the root.
pub open spec fn workspace_dir_known(m: Seq<char>) -> Option<Option<Seq<char>>> {
    if m.len() == 0 || single_component(m) {
        Some(None)
    } else if simple_path(m) && last_slash(m) is Some && last_slash(m)->Some_0 > 0 {
        Some(Some(file_name_text(m.take(last_slash(m)->Some_0))))
    } else {
        None
    }
}

/// Whether `d` may be the directory name of a workspace whose root manifest
/// is at `m`: the one every platform gives, where there is one.
pub open spec fn dir_fits(m: Seq<char>, d: Option<Seq<char>>) -> bool {
    match workspace_dir_known(m) {
        Some(k) => d == k,
        None => true,
    }
}

/// Whether `name` is the label of a workspace whose root manifest is at
/// `m`: made from a directory name that fits the manifest's path.
pub open spec fn workspace_name_fits(m: Seq<char>, name: Seq<char>) -> bool {
    exists|d: Option<Seq<char>>| #[trigger] dir_fits(m, d) && name == workspace_label_spec(d)
}

/// The directory name every platform gives where there is one, none
/// otherwise.
pub open spec fn some_fitting_dir(m: Seq<char>) -> Option<Seq<char>> {
    match workspace_dir_known(m) {
        Some(k) => k,
        None => None,
    }
}

/// Calls `std::path::Path::parent` on a path written as text and gives the
/// parent as text. Claims what its documentation says on every platform:
/// the empty path has no parent, a relative path of one component has the
/// empty path as parent, and a path of plain names joined by `/` (which is
/// a separator everywhere) has the path without its last name. Other paths
/// split by the platform's separators, which is not claimed.
#[verifier::external_body]
fn path_parent(path: &str) -> (r: Option<String>)
    ensures
        path@.len() == 0 ==> r is None,
        single_component(path@) ==> r is Some && r->Some_0@.len() == 0,
        simple_path(path@) ==> r is Some && r->Some_0@ == parent_text(path@),
{
    std::path::Path::new(path).parent().and_then(|p| p.to_str()).map(|p| p.to_string())
}

/// Calls `std::path::Path::file_name` on a path written as text and gives
/// the final component as text. Claims what its documentation says on every
/// platform: the empty path, which has no component, has no file name, and
/// a path of plain names joined by `/` has its last name. Other paths split
/// by the platform's separators, which is not claimed.
#[verifier::external_body]
fn path_file_name(path: &str) -> (r: Option<String>)
    ensures
        path@.len() == 0 ==> r is None,
        simple_path(path@) ==> r is Some && r->Some_0@ == file_name_text(path@),
{
    std::path::Path::new(path).file_name().and_then(|n| n.to_str()).map(|n| n.to_string())
}

/// The name of the directory that holds a workspace's root manifest: the
/// final component of the manifest path's parent. The empty path, and a
/// bare file name, name no directory; a path of plain names joined by `/`
/// names the last one before the file's.
pub fn workspace_root_name(manifest: &str) -> (r: Option<String>)
    ensures
        manifest@.len() == 0 ==> r is None,
        single_component(manifest@) ==> r is None,
        dir_fits(manifest@, opt_chars(r)),
{
    match path_parent(manifest) {
        Some(p) => {
            proof {
                if workspace_dir_known(manifest@) matches Some(Some(_)) {
                    let i = last_slash(manifest@)->Some_0;
                    assert(parent_text(manifest@) == manifest@.take(i));
                    assert(simple_path(manifest@.take(i)));
                }
            }
            path_file_name(p.as_str())
        },
        None => None,
    }
}

impl Unit {
    /// Returns the path to the manifest file, if this unit has one.
    pub fn path(&self) -> (r: Option<&str>)
        ensures
            match self@ {
                UnitView::Project { manifest, .. } => r matches Some(p) && p@ == manifest,
                UnitView::Workspace { manifest } => r matches Some(p) && p@ == manifest,
                UnitView::Global => r is None,
            },
    {
        match self {
            Unit::Project { manifest, .. } => Some(manifest.as_str()),
            Unit::Workspace { manifest } => Some(manifest.as_str()),
            Unit::Global => None,
        }
    }

    /// Returns the name of the unit: a project's name, `"global"`, or for a
    /// workspace the label made from its root directory's name, which is
    /// fixed wherever every platform reads the manifest path alike.
    pub fn name(&self) -> (r: String)
        ensures
            match self@ {
                UnitView::Project { name, .. } => r@ == name,
                UnitView::Workspace { manifest } => workspace_name_fits(manifest, r@),
                UnitView::Global => r@ == global_word(),
            },
    {
        match self {
            Unit::Project { name, .. } => name.clone(),
            Unit::Workspace { manifest } => {
                let dir = workspace_root_name(manifest.as_str());
                let ghost d = opt_chars(dir);
                let r = workspace_label(dir);
                assert(dir_fits(manifest@, d));
                assert(workspace_name_fits(manifest@, r@));
                r
            },
            Unit::Global => global_word_string(),
        }
    }

    /// Whether two units are the same unit.
    pub fn same_as(&self, other: &Unit) -> (r: bool)
        ensures
            r == (self@ == other@),
    {
        match (self, other) {
            (Unit::Project { manifest: m1, name: n1 }, Unit::Project { manifest: m2, name: n2 }) => {
                *m1 == *m2 && *n1 == *n2
            },
            (Unit::Workspace { manifest: m1 }, Unit::Workspace { manifest: m2 }) => *m1 == *m2,
            (Unit::Global, Unit::Global) => true,
            _ => false,
        }
    }

    /// A copy of this unit.
    pub fn copy(&self) -> (r: Unit)
        ensures
            r@ == self@,
    {
        match self {
            Unit::Project { manifest, name } => Unit::Project { manifest: manifest.clone(), name: name.clone() },
            Unit::Workspace { manifest } => Unit::Workspace { manifest: manifest.clone() },
            Unit::Global => Unit::Global,
        }
    }
}

/// The kind of dependency
#[derive(Debug, Clone, Copy, PartialEq, Eq, Hash, Structural)]
pub enum DepKind {
    Normal,
    Dev,
    Build,
}

/// The manifest section of a dependency kind.
pub open spec fn dep_kind_section(k: DepKind) -> Seq<char> {
    match k {
        DepKind::Normal => seq!['d', 'e', 'p', 'e', 'n', 'd', 'e', 'n', 'c', 'i', 'e', 's'],
        DepKind::Dev => seq!['d', 'e', 'v', '-', 'd', 'e', 'p', 'e', 'n', 'd', 'e', 'n', 'c', 'i', 'e', 's'],
        DepKind::Build => seq!['b', 'u', 'i', 'l', 'd', '-', 'd', 'e', 'p', 'e', 'n', 'd', 'e', 'n', 'c', 'i', 'e', 's'],
    }
}

impl DepKind {
    /// The manifest section that holds dependencies of this kind.
    pub fn to_string(&self) -> (r: String)
        ensures
            r@ == dep_kind_section(*self),
    {
        let v: Vec<char> = match self {
            DepKind::Normal => vec!['d', 'e', 'p', 'e', 'n', 'd', 'e', 'n', 'c', 'i', 'e', 's'],
            DepKind::Dev => vec!['d', 'e', 'v', '-', 'd', 'e', 'p', 'e', 'n', 'd', 'e', 'n', 'c', 'i', 'e', 's'],
            DepKind::Build => vec!['b', 'u', 'i', 'l', 'd', '-', 'd', 'e', 'p', 'e', 'n', 'd', 'e', 'n', 'c', 'i', 'e', 's'],
        };
        assert(v@ =~= dep_kind_section(*self));
        string_of(v.as_slice())
    }
}

/// A package URL: the package type and the package's name.
#[derive(Debug, Clone, PartialEq, Eq, Hash)]
pub struct Purl {
    package_type: String,
    name: String,
}

/// Whether a text is a valid package-URL type: a letter, then letters,
/// digits, `.`, `+` or `-`.
pub open spec fn purl_type_valid(t: Seq<char>) -> bool {
    &&& t.len() > 0
    &&& (('a' <= t[0] && t[0] <= 'z') || ('A' <= t[0] && t[0] <= 'Z'))
    &&& forall|i: int|
        1 <= i < t.len() ==> {
            let c = #[trigger] t[i];
            ('a' <= c && c <= 'z') || ('A' <= c && c <= 'Z') || ('0' <= c && c <= '9') || c == '.'
                || c == '+' || c == '-'
        }
}

/// ASCII lower-casing.
pub open spec fn ascii_lower(t: Seq<char>) -> Seq<char> {
    t.map_values(|c: char| if 'A' <= c && c <= 'Z' { ((c as u32) + 32) as char } else { c })
}

/// Calls `purl::GenericPurl::<String>::new`. Claims what its source does for
/// a `String` type: it fails exactly when the type is not a valid package
/// type or the name is empty, lower-cases the type, and keeps the name.
#[verifier::external_body]
fn purl_new(package_type: &str, name: &str) -> (r: Option<Purl>)
    ensures
        r is Some <==> (purl_type_valid(package_type@) && name@.len() > 0),
        r matches Some(p) ==> p.type_view() == ascii_lower(package_type@) && p.name_view() == name@,
{
    purl::GenericPurl::<String>::new(package_type.to_string(), name).ok().map(|p| Purl {
        package_type: p.package_type().clone(),
        name: p.name().to_string(),
    })
}

impl Purl {
    /// The package type, as text.
    pub closed spec fn type_view(&self) -> Seq<char> {
        self.package_type@
    }

    /// The package name, as text.
    pub closed spec fn name_view(&self) -> Seq<char> {
        self.name@
    }

    /// A package URL of the given type and name, if both are acceptable.
    pub fn new(package_type: &str, name: &str) -> (r: Option<Purl>)
        ensures
            r is Some <==> purl_type_valid(package_type@) && name@.len() > 0,
            r matches Some(p) ==> p.type_view() == ascii_lower(package_type@) && p.name_view() == name@,
    {
        purl_new(package_type, name)
    }


    /// Get the name.
    pub fn name(&self) -> (r: &str)
        ensures
            r@ == self.name_view(),
    {
        self.name.as_str()
    }

    /// Get the package type.
    pub fn package_type(&self) -> (r: &str)
        ensures
            r@ == self.type_view(),
    {
        self.package_type.as_str()
    }

    pub fn copy(&self) -> (r: Purl)
        ensures
            r.type_view() == self.type_view(),
            r.name_view() == self.name_view(),
    {
        Purl { package_type: self.package_type.clone(), name: self.name.clone() }
    }
}

/// One place where a package is used: the unit, the requirement, the
/// dependency kind and, when the dependency is renamed, its alias.
#[derive(Debug)]
pub struct Usage {
    pub unit: Unit,
    pub req: SemReq,
    pub kind: DepKind,
    pub rename: Option<String>,
}

/// A package with all its usages and its published versions.
#[derive(Debug)]
pub struct Package {
    pub purl: Purl,
    pub usages: Vec<Usage>,
    pub versions: Vec<PackageVersion>,
    pub repository: Option<String>,
    pub homepage: Option<String>,
}

/// One published version of a package.
#[derive(Debug)]
pub struct PackageVersion {
    pub version: SemVersion,
    pub yanked: bool,
    pub features: Vec<(String, Vec<String>)>,
    pub rust_version: Option<SemVersion>,
}

/// The requirements of each unit, in the order found.
pub struct Packages {
    /// The packages that the units use.
    pub packages: Vec<Package>,
    /// For every unit, its requirements: the requirement, the dependency
    /// kind and the index of the package in `packages`.
    pub units: Vec<(Unit, Vec<(SemReq, DepKind, usize)>)>,
}

} // verus!
