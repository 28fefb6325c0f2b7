//! The checker's settings, its errors, and how the usages that a registry
//! reports become the requirements of each unit.

use vstd::prelude::*;
use crate::text::{chars_of, string_of, extend_chars, opt_chars};
use crate::semver_model::{SemReq, ComparatorView, req_text};
use crate::package::{DepKind, Package, Packages, Unit, UnitView};
use crate::update::{str_eq, packages_wf};
use vstd::seq_lib::lemma_seq_contains_after_push;

verus! {

/// How the registry's local cache is used.
#[derive(Debug, Clone, Copy, PartialEq, Eq, Structural)]
pub enum RegistryCachePolicy {
    /// Use cached index entries where there are any.
    PreferLocal,
    /// Always ask the registry, and write what it answers to the cache.
    Refresh,
    /// Always ask the registry and write nothing.
    NoCache,
}

impl Default for RegistryCachePolicy {
    fn default() -> (r: RegistryCachePolicy)
        ensures
            r == RegistryCachePolicy::PreferLocal,
    {
        RegistryCachePolicy::PreferLocal
    }
}

impl RegistryCachePolicy {
    /// Whether cached index entries are read before asking the registry.
    pub fn uses_local_cache(&self) -> (r: bool)
        ensures
            r == (*self == RegistryCachePolicy::PreferLocal),
    {
        match self {
            RegistryCachePolicy::PreferLocal => true,
            _ => false,
        }
    }

    /// Whether answers of the registry are written to the cache.
    pub fn writes_cache(&self) -> (r: bool)
        ensures
            r == (*self != RegistryCachePolicy::NoCache),
    {
        match self {
            RegistryCachePolicy::NoCache => false,
            _ => true,
        }
    }
}

/// Settings of a checker.
#[derive(Debug, Clone, Copy)]
pub struct Options {
    pub registry_cache_policy: RegistryCachePolicy,
}

impl Default for Options {
    fn default() -> (r: Options)
        ensures
            r.registry_cache_policy == RegistryCachePolicy::PreferLocal,
    {
        Options { registry_cache_policy: RegistryCachePolicy::PreferLocal }
    }
}

/// What went wrong while reading from or writing to the cargo registry.
#[derive(Debug)]
pub enum CargoError {
    Metadata(String),
    Index(String),
    Http(String),
    Curl(String),
    CurlMulti(String),
    ReadOnly(String),
}

/// What went wrong in a registry.
#[derive(Debug)]
pub enum RegistryError {
    Cargo(CargoError),
}

/// What went wrong in the npm registry, which is not supported yet.
#[derive(Debug)]
pub enum NpmError {
    Unimplemented(String),
}

/// What went wrong while checking for updates.
#[derive(Debug)]
pub enum Error {
    Registry(RegistryError),
}

/// `prefix` followed by `detail`.
pub(crate) fn labelled(prefix: Vec<char>, detail: &str) -> (r: String)
    ensures
        r@ == prefix@ + detail@,
{
    let mut out = prefix;
    extend_chars(&mut out, &chars_of(detail));
    string_of(out.as_slice())
}

/// The message of an error of the cargo registry.
pub open spec fn cargo_error_text(e: CargoError) -> Seq<char> {
    match e {
        CargoError::Metadata(s) => "failed to get cargo metadata: "@ + s@,
        CargoError::Index(s) => "failed to access crates.io index: "@ + s@,
        CargoError::Http(s) => "HTTP request failed: "@ + s@,
        CargoError::Curl(s) => "curl error: "@ + s@,
        CargoError::CurlMulti(s) => "curl multi error: "@ + s@,
        CargoError::ReadOnly(s) => "manifest is not writable: "@ + s@,
    }
}

impl CargoError {
    /// The message of this error.
    pub fn message(&self) -> (r: String)
        ensures
            r@ == cargo_error_text(*self),
    {
        match self {
            CargoError::Metadata(s) => labelled(chars_of("failed to get cargo metadata: "), s.as_str()),
            CargoError::Index(s) => labelled(chars_of("failed to access crates.io index: "), s.as_str()),
            CargoError::Http(s) => labelled(chars_of("HTTP request failed: "), s.as_str()),
            CargoError::Curl(s) => labelled(chars_of("curl error: "), s.as_str()),
            CargoError::CurlMulti(s) => labelled(chars_of("curl multi error: "), s.as_str()),
            CargoError::ReadOnly(s) => labelled(chars_of("manifest is not writable: "), s.as_str()),
        }
    }
}

pub open spec fn registry_error_text(e: RegistryError) -> Seq<char> {
    match e {
        RegistryError::Cargo(c) => "cargo registry error: "@ + cargo_error_text(c),
    }
}

impl RegistryError {
    /// The message of this error.
    pub fn message(&self) -> (r: String)
        ensures
            r@ == registry_error_text(*self),
    {
        match self {
            RegistryError::Cargo(e) => labelled(chars_of("cargo registry error: "), e.message().as_str()),
        }
    }
}

impl NpmError {
    /// The message of this error.
    pub fn message(&self) -> (r: String)
        ensures
            r@ == (match *self {
                NpmError::Unimplemented(s) => "Unimplemented: "@ + s@,
            }),
    {
        match self {
            NpmError::Unimplemented(s) => labelled(chars_of("Unimplemented: "), s.as_str()),
        }
    }
}

impl Error {
    /// The message of this error.
    pub fn message(&self) -> (r: String)
        ensures
            r@ == (match *self {
                Error::Registry(e) => "registry error: "@ + registry_error_text(e),
            }),
    {
        match self {
            Error::Registry(e) => labelled(chars_of("registry error: "), e.message().as_str()),
        }
    }
}

/// The checker's state: where to look for the workspace and how to use the
/// registry cache.
#[derive(Debug)]
pub struct State {
    root: Option<String>,
    registry_cache_policy: RegistryCachePolicy,
}

impl State {
    pub fn new(root: Option<String>, options: Options) -> (r: State)
        ensures
            r.root_view() == opt_chars(root),
            r.policy_view() == options.registry_cache_policy,
    {
        State { root, registry_cache_policy: options.registry_cache_policy }
    }

    pub closed spec fn root_view(&self) -> Option<Seq<char>> {
        opt_chars(self.root)
    }

    pub closed spec fn policy_view(&self) -> RegistryCachePolicy {
        self.registry_cache_policy
    }

    pub fn root(&self) -> (r: Option<String>)
        ensures
            opt_chars(r) == self.root_view(),
    {
        match &self.root {
            Some(s) => Some(s.clone()),
            None => None,
        }
    }

    pub fn registry_cache_policy(&self) -> (r: RegistryCachePolicy)
        ensures
            r == self.policy_view(),
    {
        self.registry_cache_policy
    }
}

/// Checks the dependencies of a workspace for updates.
#[derive(Debug)]
pub struct CheckUpdates {
    state: State,
}

/// The key under which a usage is reported once: unit, package name, and
/// the requirement's text.
pub type UsageKey = (UnitView, Seq<char>, Seq<char>);

/// What the grouping has built so far: the requirements of each unit, and
/// the keys already reported.
pub struct GroupState {
    pub groups: Seq<(UnitView, Seq<(Seq<ComparatorView>, DepKind, int)>)>,
    pub seen: Seq<UsageKey>,
}

/// The requirements of a unit with one more entry: appended to the unit's
/// group, or as a new group at the end.
pub open spec fn add_entry(
    groups: Seq<(UnitView, Seq<(Seq<ComparatorView>, DepKind, int)>)>,
    unit: UnitView,
    entry: (Seq<ComparatorView>, DepKind, int),
) -> Seq<(UnitView, Seq<(Seq<ComparatorView>, DepKind, int)>)> {
    if exists|g: int| 0 <= g < groups.len() && (#[trigger] groups[g]).0 == unit {
        let g = choose|g: int| 0 <= g < groups.len() && (#[trigger] groups[g]).0 == unit;
        groups.update(g, (unit, groups[g].1.push(entry)))
    } else {
        groups.push((unit, seq![entry]))
    }
}

/// One usage considered: a wildcard requirement has nothing to update, and a
/// usage whose key was reported already is left out.
pub open spec fn group_step(st: GroupState, pkgs: Seq<Package>, i: int, k: int) -> GroupState {
    let u = pkgs[i].usages@[k];
    let key = (u.unit@, pkgs[i].purl.name_view(), req_text(u.req@));
    if u.req@.len() == 0 || st.seen.contains(key) {
        st
    } else {
        GroupState {
            groups: add_entry(st.groups, u.unit@, (u.req@, u.kind, i)),
            seen: st.seen.push(key),
        }
    }
}

/// The grouping after all usages of the first `i` packages and the first
/// `k` usages of package `i`.
pub open spec fn group_upto(pkgs: Seq<Package>, i: int, k: int) -> GroupState
    decreases i, k,
{
    if i <= 0 && k <= 0 {
        GroupState { groups: seq![], seen: seq![] }
    } else if k <= 0 {
        group_upto(pkgs, i - 1, pkgs[i - 1].usages@.len() as int)
    } else {
        group_step(group_upto(pkgs, i, k - 1), pkgs, i, k - 1)
    }
}

/// The requirements of each unit, grouped from all usages of all packages.
pub open spec fn grouped(pkgs: Seq<Package>) -> Seq<(UnitView, Seq<(Seq<ComparatorView>, DepKind, int)>)> {
    group_upto(pkgs, pkgs.len() as int, 0).groups
}

/// The plain content of grouped requirements.
pub open spec fn packages_view(p: Packages) -> Seq<(UnitView, Seq<(Seq<ComparatorView>, DepKind, int)>)> {
    groups_view(p.units@)
}

/// The group view of a unit's exec entries.
pub open spec fn entries_view(es: Seq<(SemReq, DepKind, usize)>) -> Seq<(Seq<ComparatorView>, DepKind, int)> {
    es.map_values(|e: (SemReq, DepKind, usize)| (e.0@, e.1, e.2 as int))
}

/// The plain content of the exec groups.
pub open spec fn groups_view(
    gs: Seq<(Unit, Vec<(SemReq, DepKind, usize)>)>,
) -> Seq<(UnitView, Seq<(Seq<ComparatorView>, DepKind, int)>)> {
    gs.map_values(|g: (Unit, Vec<(SemReq, DepKind, usize)>)| (g.0@, entries_view(g.1@)))
}

/// The keys recorded so far.
pub open spec fn keys_view(keys: Seq<(Unit, String, String)>) -> Seq<UsageKey> {
    keys.map_values(|k: (Unit, String, String)| (k.0@, k.1@, k.2@))
}

impl CheckUpdates {
    pub fn new(root: Option<String>) -> (r: CheckUpdates)
        ensures
            r.state_view().root_view() == opt_chars(root),
            r.state_view().policy_view() == RegistryCachePolicy::PreferLocal,
    {
        Self::with_options(root, Options::default())
    }

    pub fn with_options(root: Option<String>, options: Options) -> (r: CheckUpdates)
        ensures
            r.state_view().root_view() == opt_chars(root),
            r.state_view().policy_view() == options.registry_cache_policy,
    {
        CheckUpdates { state: State::new(root, options) }
    }

    pub closed spec fn state_view(&self) -> State {
        self.state
    }

    pub fn state(&self) -> (r: &State)
        ensures
            *r == self.state_view(),
    {
        &self.state
    }

    /// The requirements of each unit from the packages that the cargo
    /// registry reported, or its error. Wildcard requirements are left out,
    /// and a usage is reported once per unit, package name and requirement
    /// even where the package appears in several dependency sections.
    pub fn packages(&self, reported: Result<Vec<Package>, RegistryError>) -> (r: Result<Packages, Error>)
        ensures
            reported is Err <==> r is Err,
            reported matches Err(e) ==> r == Err::<Packages, Error>(Error::Registry(e)),
            r matches Ok(p) ==> p.packages@ == reported->Ok_0@ && packages_view(p) == grouped(
                reported->Ok_0@,
            ) && packages_wf(p),
    {
        match reported {
            Err(e) => Err(Error::Registry(e)),
            Ok(list) => Ok(group_packages(list)),
        }
    }
}

/// Whether the key `(unit, name, req)` is among the recorded keys.
fn key_seen(keys: &Vec<(Unit, String, String)>, unit: &Unit, name: &str, req: &str) -> (r: bool)
    ensures
        r == keys_view(keys@).contains((unit@, name@, req@)),
{
    let mut i: usize = 0;
    while i < keys.len()
        invariant
            i <= keys@.len(),
            forall|j: int| 0 <= j < i ==> (#[trigger] keys@[j]).0@ != unit@ || keys@[j].1@ != name@
                || keys@[j].2@ != req@,
        decreases keys@.len() - i,
    {
        let k = &keys[i];
        if k.0.same_as(unit) && str_eq(k.1.as_str(), name) && str_eq(k.2.as_str(), req) {
            proof {
                let kv = keys_view(keys@);
                assert(kv[i as int] == (unit@, name@, req@));
            }
            return true;
        }
        i = i + 1;
    }
    proof {
        let kv = keys_view(keys@);
        if kv.contains((unit@, name@, req@)) {
            let j = choose|j: int| 0 <= j < kv.len() && kv[j] == (unit@, name@, req@);
            assert(kv[j] == (keys@[j].0@, keys@[j].1@, keys@[j].2@));
        }
    }
    false
}

/// Appends an entry to the group of `unit`, or starts a new group.
fn add_entry_exec(
    groups: &mut Vec<(Unit, Vec<(SemReq, DepKind, usize)>)>,
    unit: &Unit,
    entry: (SemReq, DepKind, usize),
    Ghost(bound): Ghost<int>,
)
    requires
        entry.2 < bound,
        forall|a: int, b: int|
            0 <= a < old(groups)@.len() && 0 <= b < old(groups)@[a].1@.len() ==> (#[trigger] old(groups)@[a].1@[b]).2 < bound,
        forall|a: int, b: int|
            0 <= a < b < old(groups)@.len() ==> (#[trigger] old(groups)@[a]).0@ != (#[trigger] old(groups)@[b]).0@,
    ensures
        forall|a: int, b: int|
            0 <= a < final(groups)@.len() && 0 <= b < final(groups)@[a].1@.len() ==> (#[trigger] final(groups)@[a].1@[b]).2 < bound,
        forall|a: int, b: int|
            0 <= a < b < final(groups)@.len() ==> (#[trigger] final(groups)@[a]).0@ != (#[trigger] final(groups)@[b]).0@,
        groups_view(final(groups)@) == add_entry(
            groups_view(old(groups)@),
            unit@,
            (entry.0@, entry.1, entry.2 as int),
        ),
{
    let ghost old_view = groups_view(old(groups)@);
    let ghost ev = (entry.0@, entry.1, entry.2 as int);
    let mut g: usize = 0;
    while g < groups.len()
        invariant
            groups@ == old(groups)@,
            entry.2 < bound,
            forall|a: int, b: int|
                0 <= a < old(groups)@.len() && 0 <= b < old(groups)@[a].1@.len() ==> (#[trigger] old(groups)@[a].1@[b]).2 < bound,
            old_view == groups_view(old(groups)@),
            ev == (entry.0@, entry.1, entry.2 as int),
            forall|a: int, b: int|
                0 <= a < b < old(groups)@.len() ==> (#[trigger] old(groups)@[a]).0@ != (#[trigger] old(groups)@[b]).0@,
            g <= groups@.len(),
            forall|j: int| 0 <= j < g ==> (#[trigger] groups@[j]).0@ != unit@,
        decreases groups@.len() - g,
    {
        if groups[g].0.same_as(unit) {
            assert(old_view[g as int].0 == unit@);
            let mut es = Vec::new();
            std::mem::swap(&mut es, &mut groups[g].1);
            es.push(entry);
            groups[g].1 = es;
            proof {
                assert forall|a: int, b: int|
                    0 <= a < groups@.len() && 0 <= b < groups@[a].1@.len() implies (#[trigger] groups@[a].1@[b]).2 < bound by {
                    if a == g && b < old(groups)@[a].1@.len() {
                        assert(groups@[a].1@[b] == old(groups)@[a].1@[b]);
                    }
                }
                assert forall|j: int| 0 <= j < old_view.len() && (#[trigger] old_view[j]).0 == unit@ implies j == g by {
                    if j != g {
                        assert(old(groups)@[j].0@ == old_view[j].0);
                        if j < g {
                        } else {
                            assert((old(groups)@[g as int]).0@ != (old(groups)@[j]).0@);
                        }
                    }
                }
                let gg = choose|gg: int| 0 <= gg < old_view.len() && (#[trigger] old_view[gg]).0 == unit@;
                assert(gg == g);
                let nv = groups_view(groups@);
                assert(entries_view(groups@[g as int].1@) =~= entries_view(old(groups)@[g as int].1@).push(ev));
                assert(nv =~= old_view.update(g as int, (unit@, old_view[g as int].1.push(ev))));
            }
            return;
        }
        g = g + 1;
    }
    let mut es = Vec::new();
    es.push(entry);
    groups.push((unit.copy(), es));
    proof {
        assert(!(exists|j: int| 0 <= j < old_view.len() && (#[trigger] old_view[j]).0 == unit@));
        let nv = groups_view(groups@);
        assert(entries_view(es@) =~= seq![ev]);
        assert(nv =~= old_view.push((unit@, seq![ev])));
    }
}

/// Groups the usages of the reported packages by unit.
pub fn group_packages(list: Vec<Package>) -> (r: Packages)
    ensures
        r.packages@ == list@,
        packages_view(r) == grouped(list@),
        packages_wf(r),
{
    let mut groups: Vec<(Unit, Vec<(SemReq, DepKind, usize)>)> = Vec::new();
    let mut keys: Vec<(Unit, String, String)> = Vec::new();
    let mut i: usize = 0;
    while i < list.len()
        invariant
            i <= list@.len(),
            forall|a: int, b: int|
                0 <= a < groups@.len() && 0 <= b < groups@[a].1@.len() ==> (#[trigger] groups@[a].1@[b]).2 < list@.len(),
            forall|a: int, b: int|
                0 <= a < b < groups@.len() ==> (#[trigger] groups@[a]).0@ != (#[trigger] groups@[b]).0@,
            groups_view(groups@)
                == group_upto(list@, i as int, 0).groups,
            keys_view(keys@) == group_upto(list@, i as int, 0).seen,
        decreases list@.len() - i,
    {
        let package = &list[i];
        let mut k: usize = 0;
        while k < package.usages.len()
            invariant
                i < list@.len(),
                package == list@[i as int],
                k <= package.usages@.len(),
                forall|a: int, b: int|
                    0 <= a < groups@.len() && 0 <= b < groups@[a].1@.len() ==> (#[trigger] groups@[a].1@[b]).2 < list@.len(),
                forall|a: int, b: int|
                    0 <= a < b < groups@.len() ==> (#[trigger] groups@[a]).0@ != (#[trigger] groups@[b]).0@,
                groups_view(groups@)
                    == group_upto(list@, i as int, k as int).groups,
                keys_view(keys@) == group_upto(list@, i as int, k as int).seen,
            decreases package.usages@.len() - k,
        {
            let usage = &package.usages[k];
            proof {
                if k == 0 && i > 0 {
                    assert(group_upto(list@, i as int, 0) == group_upto(list@, i - 1, list@[i - 1].usages@.len() as int));
                }
            }
            if !usage.req.is_star() {
                let name = package.purl.name();
                let req_s = usage.req.to_string();
                if !key_seen(&keys, &usage.unit, name, req_s.as_str()) {
                    let ghost old_keys = keys@;
                    keys.push((usage.unit.copy(), name.to_owned(), req_s));
                    proof {
                        let kv0 = keys_view(old_keys);
                        let kv1 = keys_view(keys@);
                        assert(kv1 =~= kv0.push((usage.unit@, name@, req_text(usage.req@))));
                    }
                    add_entry_exec(&mut groups, &usage.unit, (usage.req.copy(), usage.kind, i), Ghost(list@.len() as int));
                }
            }
            k = k + 1;
        }
        i = i + 1;
    }
    Packages { packages: list, units: groups }
}


/// The key of an entry of a unit's requirements.
pub open spec fn entry_key(pkgs: Seq<Package>, unit: UnitView, e: (Seq<ComparatorView>, DepKind, int)) -> UsageKey {
    (unit, pkgs[e.2].purl.name_view(), req_text(e.0))
}

/// The key of usage `k` of package `i`.
pub open spec fn usage_key(pkgs: Seq<Package>, i: int, k: int) -> UsageKey {
    let u = pkgs[i].usages@[k];
    (u.unit@, pkgs[i].purl.name_view(), req_text(u.req@))
}

/// Whether some entry of the groups has the key `x`.
pub open spec fn has_entry_key(
    pkgs: Seq<Package>,
    gs: Seq<(UnitView, Seq<(Seq<ComparatorView>, DepKind, int)>)>,
    x: UsageKey,
) -> bool {
    exists|a: int, b: int|
        0 <= a < gs.len() && 0 <= b < gs[a].1.len() && #[trigger] entry_key(pkgs, gs[a].0, gs[a].1[b]) == x
}

/// What the grouping keeps: each unit once, no wildcard requirement, every
/// entry naming one of the packages, and each key once in its unit.
pub open spec fn grouping_sound(pkgs: Seq<Package>, gs: Seq<(UnitView, Seq<(Seq<ComparatorView>, DepKind, int)>)>) -> bool {
    &&& forall|a: int, b: int| 0 <= a < b < gs.len() ==> (#[trigger] gs[a]).0 != (#[trigger] gs[b]).0
    &&& forall|a: int, b: int|
        0 <= a < gs.len() && 0 <= b < gs[a].1.len() ==> (#[trigger] gs[a].1[b]).0.len() > 0 && 0 <= gs[a].1[b].2
            < pkgs.len()
    &&& forall|a: int, b: int, c: int|
        0 <= a < gs.len() && 0 <= b < c < gs[a].1.len() ==> entry_key(pkgs, gs[a].0, #[trigger] gs[a].1[b])
            != entry_key(pkgs, gs[a].0, #[trigger] gs[a].1[c])
}

/// Whether the place `(j, l)` comes before `(i, k)` in the order in which
/// the grouping considers usages.
pub open spec fn considered_before(j: int, l: int, i: int, k: int) -> bool {
    j < i || (j == i && l < k)
}

/// The grouping after the usages before `(i, k)`: sound, its keys are the
/// recorded ones, and every usage considered so far with a requirement
/// other than `*` is recorded.
proof fn lemma_group_upto(pkgs: Seq<Package>, i: int, k: int)
    requires
        0 <= i <= pkgs.len(),
        0 <= k,
        i < pkgs.len() ==> k <= pkgs[i].usages@.len(),
        i == pkgs.len() ==> k == 0,
    ensures
        grouping_sound(pkgs, group_upto(pkgs, i, k).groups),
        forall|x: UsageKey| #[trigger] group_upto(pkgs, i, k).seen.contains(x) <==> has_entry_key(pkgs, group_upto(pkgs, i, k).groups, x),
        forall|j: int, l: int|
            0 <= j < pkgs.len() && 0 <= l < pkgs[j].usages@.len() && considered_before(j, l, i, k)
                && pkgs[j].usages@[l].req@.len() > 0 ==> group_upto(pkgs, i, k).seen.contains(#[trigger] usage_key(pkgs, j, l)),
    decreases i, k,
{
    if i <= 0 && k <= 0 {
    } else if k <= 0 {
        lemma_group_upto(pkgs, i - 1, pkgs[i - 1].usages@.len() as int);
    } else {
        lemma_group_upto(pkgs, i, k - 1);
        lemma_group_step(pkgs, i, k - 1);
    }
}

/// One usage considered keeps what `lemma_group_upto` states.
proof fn lemma_group_step(pkgs: Seq<Package>, i: int, k: int)
    requires
        0 <= i < pkgs.len(),
        0 <= k < pkgs[i].usages@.len(),
        grouping_sound(pkgs, group_upto(pkgs, i, k).groups),
        forall|x: UsageKey| #[trigger] group_upto(pkgs, i, k).seen.contains(x) <==> has_entry_key(pkgs, group_upto(pkgs, i, k).groups, x),
        forall|j: int, l: int|
            0 <= j < pkgs.len() && 0 <= l < pkgs[j].usages@.len() && considered_before(j, l, i, k)
                && pkgs[j].usages@[l].req@.len() > 0 ==> group_upto(pkgs, i, k).seen.contains(#[trigger] usage_key(pkgs, j, l)),
    ensures
        grouping_sound(pkgs, group_upto(pkgs, i, k + 1).groups),
        forall|x: UsageKey| #[trigger] group_upto(pkgs, i, k + 1).seen.contains(x) <==> has_entry_key(pkgs, group_upto(pkgs, i, k + 1).groups, x),
        forall|j: int, l: int|
            0 <= j < pkgs.len() && 0 <= l < pkgs[j].usages@.len() && considered_before(j, l, i, k + 1)
                && pkgs[j].usages@[l].req@.len() > 0 ==> group_upto(pkgs, i, k + 1).seen.contains(#[trigger] usage_key(pkgs, j, l)),
{
    let st = group_upto(pkgs, i, k);
    let ns = group_upto(pkgs, i, k + 1);
    assert(ns == group_step(st, pkgs, i, k));
    let u = pkgs[i].usages@[k];
    let key = usage_key(pkgs, i, k);
    assert forall|j: int, l: int|
        0 <= j < pkgs.len() && 0 <= l < pkgs[j].usages@.len() && considered_before(j, l, i, k + 1)
            && pkgs[j].usages@[l].req@.len() > 0 implies ns.seen.contains(#[trigger] usage_key(pkgs, j, l)) by {
        if !(u.req@.len() == 0 || st.seen.contains(key)) {
            assert(ns.seen == st.seen.push(key));
            lemma_seq_contains_after_push(st.seen, key, usage_key(pkgs, j, l));
        }
        if !(j == i && l == k) {
            assert(considered_before(j, l, i, k));
        }
    }
    if u.req@.len() == 0 || st.seen.contains(key) {
        assert(ns == st);
    } else {
        let e = (u.req@, u.kind, i);
        let gs = st.groups;
        assert(entry_key(pkgs, u.unit@, e) == key);
        if exists|g: int| 0 <= g < gs.len() && (#[trigger] gs[g]).0 == u.unit@ {
            let g = choose|g: int| 0 <= g < gs.len() && (#[trigger] gs[g]).0 == u.unit@;
            let n = gs.update(g, (u.unit@, gs[g].1.push(e)));
            assert(ns.groups == n);
            assert forall|a: int, b: int| 0 <= a < n.len() && 0 <= b < n[a].1.len() implies (#[trigger] n[a].1[b]).0.len() > 0
                && 0 <= n[a].1[b].2 < pkgs.len() by {
                if a == g && b == gs[g].1.len() {
                } else {
                    assert(n[a].1[b] == gs[a].1[b]);
                }
            }
            assert forall|a: int, b: int, c: int| 0 <= a < n.len() && 0 <= b < c < n[a].1.len() implies entry_key(
                pkgs,
                n[a].0,
                #[trigger] n[a].1[b],
            ) != entry_key(pkgs, n[a].0, #[trigger] n[a].1[c]) by {
                assert(n[a].0 == gs[a].0);
                assert(n[a].1[b] == gs[a].1[b]);
                if a == g && c == gs[g].1.len() {
                    assert(n[a].1[c] == e);
                    assert(st.seen.contains(entry_key(pkgs, gs[a].0, gs[a].1[b])));
                } else {
                    assert(n[a].1[c] == gs[a].1[c]);
                }
            }
            assert forall|x: UsageKey| #[trigger] ns.seen.contains(x) <==> has_entry_key(pkgs, n, x) by {
                assert(ns.seen == st.seen.push(key));
                lemma_seq_contains_after_push(st.seen, key, x);
                if ns.seen.contains(x) {
                    if x == key {
                        assert(entry_key(pkgs, n[g].0, n[g].1[gs[g].1.len() as int]) == x);
                    } else {
                        assert(st.seen.contains(x));
                        let (a, b) = choose|a: int, b: int|
                            0 <= a < gs.len() && 0 <= b < gs[a].1.len() && #[trigger] entry_key(pkgs, gs[a].0, gs[a].1[b]) == x;
                        assert(n[a].1[b] == gs[a].1[b]);
                        assert(entry_key(pkgs, n[a].0, n[a].1[b]) == x);
                    }
                }
                if has_entry_key(pkgs, n, x) {
                    let (a, b) = choose|a: int, b: int|
                        0 <= a < n.len() && 0 <= b < n[a].1.len() && #[trigger] entry_key(pkgs, n[a].0, n[a].1[b]) == x;
                    if a == g && b == gs[g].1.len() {
                        assert(x == key);
                    } else {
                        assert(n[a].1[b] == gs[a].1[b]);
                        assert(entry_key(pkgs, gs[a].0, gs[a].1[b]) == x);
                        assert(st.seen.contains(x));
                    }
                }
            }
        } else {
            let n = gs.push((u.unit@, seq![e]));
            assert(ns.groups == n);
            assert forall|a: int, b: int| 0 <= a < b < n.len() implies (#[trigger] n[a]).0 != (#[trigger] n[b]).0 by {
                if b == gs.len() {
                    assert(n[a] == gs[a]);
                }
            }
            assert forall|a: int, b: int| 0 <= a < n.len() && 0 <= b < n[a].1.len() implies (#[trigger] n[a].1[b]).0.len() > 0
                && 0 <= n[a].1[b].2 < pkgs.len() by {
                if a < gs.len() {
                    assert(n[a] == gs[a]);
                }
            }
            assert forall|a: int, b: int, c: int| 0 <= a < n.len() && 0 <= b < c < n[a].1.len() implies entry_key(
                pkgs,
                n[a].0,
                #[trigger] n[a].1[b],
            ) != entry_key(pkgs, n[a].0, #[trigger] n[a].1[c]) by {
                assert(a < gs.len());
                assert(n[a] == gs[a]);
            }
            assert forall|x: UsageKey| #[trigger] ns.seen.contains(x) <==> has_entry_key(pkgs, n, x) by {
                assert(ns.seen == st.seen.push(key));
                lemma_seq_contains_after_push(st.seen, key, x);
                if ns.seen.contains(x) {
                    if x == key {
                        assert(entry_key(pkgs, n[gs.len() as int].0, n[gs.len() as int].1[0]) == x);
                    } else {
                        assert(st.seen.contains(x));
                        let (a, b) = choose|a: int, b: int|
                            0 <= a < gs.len() && 0 <= b < gs[a].1.len() && #[trigger] entry_key(pkgs, gs[a].0, gs[a].1[b]) == x;
                        assert(n[a] == gs[a]);
                        assert(entry_key(pkgs, n[a].0, n[a].1[b]) == x);
                    }
                }
                if has_entry_key(pkgs, n, x) {
                    let (a, b) = choose|a: int, b: int|
                        0 <= a < n.len() && 0 <= b < n[a].1.len() && #[trigger] entry_key(pkgs, n[a].0, n[a].1[b]) == x;
                    if a == gs.len() {
                        assert(x == key);
                    } else {
                        assert(n[a] == gs[a]);
                        assert(entry_key(pkgs, gs[a].0, gs[a].1[b]) == x);
                        assert(st.seen.contains(x));
                    }
                }
            }
        }
    }
}

/// Grouping reports each unit once, leaves out wildcard requirements, and
/// reports a package with a requirement once per unit, even where the
/// package stands in several of the unit's dependency tables; every other
/// usage of the reported packages is reported.
pub proof fn law_grouping_once_per_key(pkgs: Seq<Package>)
    ensures
        grouping_sound(pkgs, grouped(pkgs)),
        forall|i: int, k: int|
            0 <= i < pkgs.len() && 0 <= k < pkgs[i].usages@.len() && pkgs[i].usages@[k].req@.len() > 0
                ==> has_entry_key(pkgs, grouped(pkgs), #[trigger] usage_key(pkgs, i, k)),
{
    lemma_group_upto(pkgs, pkgs.len() as int, 0);
    let st = group_upto(pkgs, pkgs.len() as int, 0);
    assert forall|i: int, k: int|
        0 <= i < pkgs.len() && 0 <= k < pkgs[i].usages@.len() && pkgs[i].usages@[k].req@.len() > 0
            implies has_entry_key(pkgs, grouped(pkgs), #[trigger] usage_key(pkgs, i, k)) by {
        assert(considered_before(i, k, pkgs.len() as int, 0));
        assert(st.seen.contains(usage_key(pkgs, i, k)));
    }
}

} // verus!
