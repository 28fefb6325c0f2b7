//! Finding the updates of each unit and laying them out for display.

use vstd::prelude::*;
use crate::text::{byte_len, byte_len_spec, push_spaces, spaces, sat_sub, opt_chars, chars_of, string_of, slice_chars, extend_chars, trim_ws, trim_chars, starts_with, ends_with, chars_start_with, chars_end_with, first_where, find_char};
use crate::package::{Unit, UnitView, Usage, Package, Packages, DepKind, workspace_word, global_word, workspace_root_name, dir_fits, some_fitting_dir, workspace_name_fits};
use crate::semver_model::{SemReq, SemVersion, ComparatorView, VersionView};
use crate::version::{paint, colorize_req, colorized, styled, TermStyle, highlight_point, VersionBump, VersionStrategy, current_version, current_version_spec, resolve_version, pick_latest, try_build_new_req, rewritable, new_req_spec, version_bump, bump_between, is_version_yanked, yanked_spec, opt_view};

verus! {

pub open spec fn https_prefix() -> Seq<char> {
    seq!['h', 't', 't', 'p', 's', ':', '/', '/']
}

pub open spec fn http_prefix() -> Seq<char> {
    seq!['h', 't', 't', 'p', ':', '/', '/']
}

pub open spec fn git_at_prefix() -> Seq<char> {
    seq!['g', 'i', 't', '@']
}

pub open spec fn git_scheme_prefix() -> Seq<char> {
    seq!['g', 'i', 't', ':', '/', '/']
}

pub open spec fn dot_git_suffix() -> Seq<char> {
    seq!['.', 'g', 'i', 't']
}

/// The URL without surrounding white space and without a `.git` ending.
pub open spec fn repo_url_base(url: Seq<char>) -> Seq<char> {
    let t = trim_ws(url);
    if ends_with(t, dot_git_suffix()) {
        t.take(t.len() - 4)
    } else {
        t
    }
}

/// A repository URL as an `https://` address: `git@host:path` becomes
/// `https://host/path`, `git://` and `http://` become `https://`, white
/// space around it and a `.git` ending are dropped.
pub open spec fn normalized_repo_url(url: Seq<char>) -> Seq<char> {
    let u = repo_url_base(url);
    let rest = u.skip(4);
    if starts_with(u, git_at_prefix()) && first_where(rest, |c: char| c == ':') is Some {
        let i = first_where(rest, |c: char| c == ':').unwrap();
        https_prefix() + rest.take(i) + seq!['/'] + rest.skip(i + 1)
    } else if starts_with(u, git_scheme_prefix()) {
        https_prefix() + u.skip(6)
    } else if starts_with(u, http_prefix()) {
        https_prefix() + u.skip(7)
    } else {
        u
    }
}

fn https_chars() -> (r: Vec<char>)
    ensures
        r@ == https_prefix(),
{
    let r: Vec<char> = vec!['h', 't', 't', 'p', 's', ':', '/', '/'];
    assert(r@ =~= https_prefix());
    r
}

/// Turns a repository URL into an `https://` address.
pub fn normalize_repo_url(url: &str) -> (r: String)
    ensures
        r@ == normalized_repo_url(url@),
{
    let cs = chars_of(url);
    let t = trim_chars(&cs);
    let dot_git: Vec<char> = vec!['.', 'g', 'i', 't'];
    assert(dot_git@ =~= dot_git_suffix());
    let u = if chars_end_with(&t, &dot_git) {
        slice_chars(&t, 0, t.len() - 4)
    } else {
        t
    };
    assert(u@ == repo_url_base(url@));
    let git_at: Vec<char> = vec!['g', 'i', 't', '@'];
    assert(git_at@ =~= git_at_prefix());
    if chars_start_with(&u, &git_at) {
        let rest = slice_chars(&u, 4, u.len());
        assert(rest@ =~= u@.skip(4));
        if let Some(i) = find_char(&rest, ':') {
            let mut out = https_chars();
            let host = slice_chars(&rest, 0, i);
            let path = slice_chars(&rest, i + 1, rest.len());
            extend_chars(&mut out, &host);
            out.push('/');
            extend_chars(&mut out, &path);
            assert(out@ =~= normalized_repo_url(url@));
            return string_of(out.as_slice());
        }
    }
    let git_scheme: Vec<char> = vec!['g', 'i', 't', ':', '/', '/'];
    assert(git_scheme@ =~= git_scheme_prefix());
    if chars_start_with(&u, &git_scheme) {
        let mut out = https_chars();
        let rest = slice_chars(&u, 6, u.len());
        extend_chars(&mut out, &rest);
        assert(out@ =~= normalized_repo_url(url@));
        return string_of(out.as_slice());
    }
    let http: Vec<char> = vec!['h', 't', 't', 'p', ':', '/', '/'];
    assert(http@ =~= http_prefix());
    if chars_start_with(&u, &http) {
        let mut out = https_chars();
        let rest = slice_chars(&u, 7, u.len());
        extend_chars(&mut out, &rest);
        assert(out@ =~= normalized_repo_url(url@));
        return string_of(out.as_slice());
    }
    string_of(u.as_slice())
}

/// The terminal escape sequence that links `text` to `url`:
/// `ESC ]8;; url ESC \ text ESC ]8;; ESC \`.
pub open spec fn hyperlink_text(url: Seq<char>, text: Seq<char>) -> Seq<char> {
    seq!['\u{1b}', ']', '8', ';', ';'] + url + seq!['\u{1b}', '\\'] + text + seq![
        '\u{1b}',
        ']',
        '8',
        ';',
        ';',
        '\u{1b}',
        '\\',
    ]
}

/// Wraps `text` in a terminal hyperlink to `url`.
pub fn hyperlink(url: &str, text: &str) -> (r: String)
    ensures
        r@ == hyperlink_text(url@, text@),
{
    let mut out: Vec<char> = vec!['\u{1b}', ']', '8', ';', ';'];
    extend_chars(&mut out, &chars_of(url));
    out.push('\u{1b}');
    out.push('\\');
    extend_chars(&mut out, &chars_of(text));
    let tail: Vec<char> = vec!['\u{1b}', ']', '8', ';', ';', '\u{1b}', '\\'];
    extend_chars(&mut out, &tail);
    assert(out@ =~= hyperlink_text(url@, text@));
    string_of(out.as_slice())
}

/// Whether a filter names a workspace: `"workspace"`, or the name of the
/// directory that holds its root manifest.
pub open spec fn workspace_filter_spec(filter: Seq<char>, dir: Option<Seq<char>>) -> bool {
    filter == workspace_word() || dir == Some(filter)
}

/// Decides a workspace filter from the name of the workspace's directory.
pub fn workspace_matches(filter: &str, dir: Option<String>) -> (r: bool)
    ensures
        r == workspace_filter_spec(filter@, match dir {
            Some(d) => Some(d@),
            None => None,
        }),
{
    let w: Vec<char> = vec!['w', 'o', 'r', 'k', 's', 'p', 'a', 'c', 'e'];
    assert(w@ =~= workspace_word());
    let fs = chars_of(filter);
    if chars_eq(&fs, &w) {
        return true;
    }
    match dir {
        Some(d) => chars_eq(&fs, &chars_of(d.as_str())),
        None => false,
    }
}

/// Equality of two character vectors.
pub fn chars_eq(a: &Vec<char>, b: &Vec<char>) -> (r: bool)
    ensures
        r == (a@ == b@),
{
    if a.len() != b.len() {
        return false;
    }
    let mut i: usize = 0;
    while i < a.len()
        invariant
            a@.len() == b@.len(),
            i <= a@.len(),
            forall|j: int| 0 <= j < i ==> a@[j] == b@[j],
        decreases a@.len() - i,
    {
        if a[i] != b[i] {
            return false;
        }
        i = i + 1;
    }
    assert(a@ =~= b@);
    true
}

/// Equality of two texts.
pub fn str_eq(a: &str, b: &str) -> (r: bool)
    ensures
        r == (a@ == b@),
{
    chars_eq(&chars_of(a), &chars_of(b))
}

/// Whether a filter selects a workspace whose root manifest is at `m`
/// exactly when it is `"workspace"` or the name of the workspace's
/// directory, for a directory name that fits the manifest's path (the one
/// every platform gives, where there is one).
pub open spec fn workspace_selected(m: Seq<char>, filter: Seq<char>, selected: bool) -> bool {
    exists|d: Option<Seq<char>>| #[trigger] dir_fits(m, d) && selected == workspace_filter_spec(filter, d)
}

/// What a filter selects of a unit: a project by its name, the global unit
/// by `"global"`, a workspace by `"workspace"` or by its directory's name.
pub open spec fn filter_selects(unit: UnitView, filter: Seq<char>, selected: bool) -> bool {
    match unit {
        UnitView::Project { name, .. } => selected == (filter == name),
        UnitView::Global => selected == (filter == global_word()),
        UnitView::Workspace { manifest } => workspace_selected(manifest, filter, selected),
    }
}

/// Whether a `--package` filter value selects a unit.
pub fn unit_matches_filter(unit: &Unit, filter: &str) -> (r: bool)
    ensures
        filter_selects(unit@, filter@, r),
{
    match unit {
        Unit::Project { name, .. } => str_eq(filter, name.as_str()),
        Unit::Workspace { manifest } => {
            let dir = workspace_root_name(manifest.as_str());
            let ghost d = opt_chars(dir);
            let r = workspace_matches(filter, dir);
            assert(dir_fits(manifest@, d));
            r
        },
        Unit::Global => {
            let g: Vec<char> = vec!['g', 'l', 'o', 'b', 'a', 'l'];
            assert(g@ =~= global_word());
            chars_eq(&chars_of(filter), &g)
        },
    }
}

/// Whether a list of filters selects a unit: every unit when the list is
/// empty, else a unit that some filter selects.
pub open spec fn filters_select(unit: UnitView, filter: Seq<String>, selected: bool) -> bool {
    if filter.len() == 0 {
        selected
    } else {
        exists|picks: Seq<bool>| #[trigger] picks_fit(unit, filter, picks, selected)
    }
}

/// Per-filter picks that fit what each filter can select, and whose
/// disjunction is `selected`.
pub open spec fn picks_fit(unit: UnitView, filter: Seq<String>, picks: Seq<bool>, selected: bool) -> bool {
    &&& picks.len() == filter.len()
    &&& forall|i: int| 0 <= i < filter.len() ==> filter_selects(unit, #[trigger] filter[i]@, picks[i])
    &&& selected == (exists|i: int| 0 <= i < picks.len() && #[trigger] picks[i])
}

/// The pick that a filter makes of a unit where it is not known to depend on
/// the platform.
pub open spec fn default_pick(unit: UnitView, filter: Seq<char>) -> bool {
    match unit {
        UnitView::Project { name, .. } => filter == name,
        UnitView::Global => filter == global_word(),
        UnitView::Workspace { manifest } => workspace_filter_spec(filter, some_fitting_dir(manifest)),
    }
}

pub fn matches_filter(filter: &[String], unit: &Unit) -> (r: bool)
    ensures
        filters_select(unit@, filter@, r),
{
    if filter.len() == 0 {
        return true;
    }
    let ghost mut picks: Seq<bool> = seq![];
    let mut i: usize = 0;
    while i < filter.len()
        invariant
            0 < filter@.len(),
            i <= filter@.len(),
            picks.len() == i,
            forall|k: int| 0 <= k < i ==> filter_selects(unit@, #[trigger] filter@[k]@, picks[k]),
            forall|k: int| 0 <= k < i ==> !#[trigger] picks[k],
        decreases filter@.len() - i,
    {
        let m = unit_matches_filter(unit, filter[i].as_str());
        if m {
            proof {
                let all = Seq::new(filter@.len(), |k: int| if k < i { picks[k] } else if k == i { true } else { default_pick(unit@, filter@[k]@) });
                assert forall|k: int| 0 <= k < filter@.len() implies filter_selects(unit@, #[trigger] filter@[k]@, all[k]) by {
                    if k < i {
                        assert(all[k] == picks[k]);
                    } else if k > i {
                        if let UnitView::Workspace { manifest } = unit@ {
                            assert(dir_fits(manifest, some_fitting_dir(manifest)));
                        }
                    }
                }
                assert(all[i as int]);
                assert(picks_fit(unit@, filter@, all, true));
            }
            return true;
        }
        proof {
            picks = picks.push(false);
        }
        i = i + 1;
    }
    proof {
        assert(picks.len() == filter@.len());
        assert(!(exists|k: int| 0 <= k < picks.len() && #[trigger] picks[k]));
        assert(picks_fit(unit@, filter@, picks, false));
    }
    false
}


/// A pending update of one requirement of a unit.
#[derive(Debug)]
pub struct Update<'a> {
    pub name: &'a str,
    pub current_req: &'a SemReq,
    pub new_req: SemReq,
    pub bump: VersionBump,
    pub yanked: bool,
    pub usage: &'a Usage,
    pub package: &'a Package,
}

/// An update as positions in the grouped requirements: the unit, the entry
/// of the unit, the package and the usage of the package; and what it
/// changes.
pub struct PlannedUpdate {
    pub unit: int,
    pub entry: int,
    pub package: int,
    pub usage: int,
    pub new_req: Seq<ComparatorView>,
    pub bump: VersionBump,
    pub yanked: bool,
}

/// Whether grouped requirements refer only to packages that they hold.
pub open spec fn packages_wf(p: Packages) -> bool {
    forall|i: int, j: int|
        0 <= i < p.units@.len() && 0 <= j < p.units@[i].1@.len() ==> (#[trigger] p.units@[i].1@[j]).2
            < p.packages@.len()
}

/// The index of the first usage of a unit with a requirement.
pub open spec fn first_usage(us: Seq<Usage>, unit: UnitView, req: Seq<ComparatorView>) -> Option<int>
    decreases us.len(),
{
    if us.len() == 0 {
        None
    } else {
        match first_usage(us.drop_last(), unit, req) {
            Some(k) => Some(k),
            None => if us.last().unit@ == unit && us.last().req@ == req {
                Some(us.len() - 1)
            } else {
                None
            },
        }
    }
}

/// The update of entry `j` of unit `i`: the greatest eligible published
/// version, as a requirement of the same shape; none when there is no
/// eligible version, the requirement would not change, the rewritten text
/// does not parse, or no usage carries the unit and requirement.
pub open spec fn plan_entry(p: Packages, i: int, j: int, strategy: VersionStrategy) -> Option<PlannedUpdate> {
    let e = p.units@[i].1@[j];
    let req = e.0@;
    let pi = e.2 as int;
    let pkg = p.packages@[pi];
    let cur = current_version_spec(req);
    match pick_latest(pkg.versions@, req, strategy, cur) {
        None => None,
        Some(b) => {
            let latest = pkg.versions@[b].version@;
            if !rewritable(req, latest) {
                None
            } else {
                let nr = new_req_spec(req, latest);
                if nr == req {
                    None
                } else {
                    match first_usage(pkg.usages@, p.units@[i].0@, req) {
                        None => None,
                        Some(k) => Some(
                            PlannedUpdate {
                                unit: i,
                                entry: j,
                                package: pi,
                                usage: k,
                                new_req: nr,
                                bump: match cur {
                                    Some(c) => bump_between(c, latest),
                                    None => VersionBump::Major,
                                },
                                yanked: yanked_spec(pkg.versions@, cur),
                            },
                        ),
                    }
                }
            }
        },
    }
}

/// Whether an exec update is the planned one.
pub open spec fn update_is(u: Update, p: Packages, pl: PlannedUpdate) -> bool {
    &&& 0 <= pl.unit < p.units@.len()
    &&& 0 <= pl.entry < p.units@[pl.unit].1@.len()
    &&& 0 <= pl.package < p.packages@.len()
    &&& 0 <= pl.usage < p.packages@[pl.package].usages@.len()
    &&& u.name@ == p.packages@[pl.package].purl.name_view()
    &&& *u.current_req == p.units@[pl.unit].1@[pl.entry].0
    &&& u.new_req@ == pl.new_req
    &&& u.bump == pl.bump
    &&& u.yanked == pl.yanked
    &&& *u.usage == p.packages@[pl.package].usages@[pl.usage]
    &&& *u.package == p.packages@[pl.package]
}

/// Lexicographic order of two texts, as -1, 0 or 1.
pub open spec fn lex_order(a: Seq<char>, b: Seq<char>) -> int
    decreases a.len(),
{
    if a.len() == 0 && b.len() == 0 {
        0
    } else if a.len() == 0 {
        -1
    } else if b.len() == 0 {
        1
    } else if a[0] < b[0] {
        -1
    } else if a[0] > b[0] {
        1
    } else {
        lex_order(a.drop_first(), b.drop_first())
    }
}

/// The order of units: the workspace first, then projects by name, then the
/// global unit.
pub open spec fn unit_order(a: UnitView, b: UnitView) -> int {
    match (a, b) {
        (UnitView::Workspace { .. }, UnitView::Workspace { .. }) => 0,
        (UnitView::Workspace { .. }, _) => -1,
        (_, UnitView::Workspace { .. }) => 1,
        (UnitView::Global, UnitView::Global) => 0,
        (UnitView::Global, _) => 1,
        (_, UnitView::Global) => -1,
        (UnitView::Project { name: x, .. }, UnitView::Project { name: y, .. }) => lex_order(x, y),
    }
}

/// Lexicographic order of two character vectors.
pub fn lex_order_chars(a: &Vec<char>, b: &Vec<char>) -> (r: i8)
    ensures
        r == lex_order(a@, b@),
{
    let mut i: usize = 0;
    assert(a@.skip(0) =~= a@);
    assert(b@.skip(0) =~= b@);
    while i < a.len() && i < b.len()
        invariant
            i <= a@.len(),
            i <= b@.len(),
            a@.subrange(0, i as int) == b@.subrange(0, i as int),
            lex_order(a@, b@) == lex_order(a@.skip(i as int), b@.skip(i as int)),
        decreases a@.len() - i,
    {
        assert(a@.skip(i as int)[0] == a@[i as int]);
        assert(b@.skip(i as int)[0] == b@[i as int]);
        if a[i] < b[i] {
            return -1;
        }
        if a[i] > b[i] {
            return 1;
        }
        assert(a@.skip(i as int).drop_first() =~= a@.skip(i + 1));
        assert(b@.skip(i as int).drop_first() =~= b@.skip(i + 1));
        assert(a@.subrange(0, i + 1) =~= a@.subrange(0, i as int).push(a@[i as int]));
        assert(b@.subrange(0, i + 1) =~= b@.subrange(0, i as int).push(b@[i as int]));
        i = i + 1;
    }
    assert(a@.skip(i as int).len() == a@.len() - i);
    if i == a.len() && i == b.len() {
        0
    } else if i == a.len() {
        -1
    } else {
        1
    }
}

impl Unit {
    /// The order of units: the workspace first, then projects by name, then
    /// the global unit.
    pub fn order(&self, other: &Unit) -> (r: i8)
        ensures
            r == unit_order(self@, other@),
    {
        match (self, other) {
            (Unit::Workspace { .. }, Unit::Workspace { .. }) => 0,
            (Unit::Workspace { .. }, _) => -1,
            (_, Unit::Workspace { .. }) => 1,
            (Unit::Global, Unit::Global) => 0,
            (Unit::Global, _) => 1,
            (_, Unit::Global) => -1,
            (Unit::Project { name: x, .. }, Unit::Project { name: y, .. }) => lex_order_chars(
                &chars_of(x.as_str()),
                &chars_of(y.as_str()),
            ),
        }
    }
}

/// The index of the first usage of `unit` with requirement `req`.
fn find_usage(us: &Vec<Usage>, unit: &Unit, req: &SemReq) -> (r: Option<usize>)
    ensures
        r matches Some(k) ==> first_usage(us@, unit@, req@) == Some(k as int) && k < us@.len(),
        r is None ==> first_usage(us@, unit@, req@) is None,
{
    let mut k: usize = 0;
    while k < us.len()
        invariant
            k <= us@.len(),
            first_usage(us@.take(k as int), unit@, req@) is None,
        decreases us@.len() - k,
    {
        assert(us@.take(k + 1).drop_last() =~= us@.take(k as int));
        if us[k].unit.same_as(unit) && us[k].req.same_as(req) {
            proof {
                lemma_first_usage_extends(us@, unit@, req@, k as int + 1, k as int);
            }
            return Some(k);
        }
        k = k + 1;
    }
    assert(us@.take(us@.len() as int) =~= us@);
    None
}

/// A first usage found in a prefix is the first usage of the whole.
proof fn lemma_first_usage_extends(us: Seq<Usage>, unit: UnitView, req: Seq<ComparatorView>, n: int, k: int)
    requires
        0 <= k < n <= us.len(),
        first_usage(us.take(n), unit, req) == Some(k),
    ensures
        first_usage(us, unit, req) == Some(k),
    decreases us.len() - n,
{
    if n < us.len() {
        assert(us.take(n + 1).drop_last() =~= us.take(n));
        lemma_first_usage_extends(us, unit, req, n + 1, k);
    } else {
        assert(us.take(n) =~= us);
    }
}

/// The update of entry `j` of unit `i`, if any.
fn plan_entry_exec<'a>(packages: &'a Packages, i: usize, j: usize, strategy: &VersionStrategy) -> (r: Option<Update<'a>>)
    requires
        packages_wf(*packages),
        i < packages.units@.len(),
        j < packages.units@[i as int].1@.len(),
    ensures
        r is None <==> plan_entry(*packages, i as int, j as int, *strategy) is None,
        r matches Some(u) ==> update_is(u, *packages, plan_entry(*packages, i as int, j as int, *strategy)->0),
{
    let entry = &packages.units[i].1[j];
    let req = &entry.0;
    let pi = entry.2;
    assert(pi < packages.packages@.len());
    let package = &packages.packages[pi];
    let current = current_version(req);
    let cur_ref: Option<&SemVersion> = match &current {
        Some(c) => Some(c),
        None => None,
    };
    assert(opt_view(cur_ref) == current_version_spec(req@));
    let latest = match resolve_version(package.versions.as_slice(), req, strategy, cur_ref) {
        Some(l) => l,
        None => return None,
    };
    let new_req = match try_build_new_req(req, &latest) {
        Some(q) => q,
        None => return None,
    };
    if new_req.same_as(req) {
        return None;
    }
    let bump = match cur_ref {
        Some(c) => version_bump(c, &latest),
        None => VersionBump::Major,
    };
    let yanked = is_version_yanked(package.versions.as_slice(), cur_ref);
    let k = match find_usage(&package.usages, &packages.units[i].0, req) {
        Some(k) => k,
        None => return None,
    };
    Some(Update {
        name: package.purl.name(),
        current_req: req,
        new_req,
        bump,
        yanked,
        usage: &package.usages[k],
        package,
    })
}


/// Where a unit goes among groups kept in unit order: after every group
/// that comes before it.
pub open spec fn insert_pos(groups: Seq<(UnitView, Seq<PlannedUpdate>)>, u: UnitView) -> int
    decreases groups.len(),
{
    if groups.len() == 0 {
        0
    } else if unit_order(groups.last().0, u) < 0 {
        groups.len() as int
    } else {
        insert_pos(groups.drop_last(), u)
    }
}

/// One more update of a unit: appended to the group of a unit of the same
/// order, or a new group at the unit's place.
pub open spec fn add_planned(
    groups: Seq<(UnitView, Seq<PlannedUpdate>)>,
    u: UnitView,
    pl: PlannedUpdate,
) -> Seq<(UnitView, Seq<PlannedUpdate>)> {
    let pos = insert_pos(groups, u);
    if pos < groups.len() && unit_order(groups[pos].0, u) == 0 {
        groups.update(pos, (groups[pos].0, groups[pos].1.push(pl)))
    } else {
        groups.insert(pos, (u, seq![pl]))
    }
}

/// The groups after all entries of the first `i` units and the first `j`
/// entries of unit `i`, of the units that are included.
pub open spec fn collect_upto(
    p: Packages,
    incl: Seq<bool>,
    strategy: VersionStrategy,
    i: int,
    j: int,
) -> Seq<(UnitView, Seq<PlannedUpdate>)>
    decreases i, j,
{
    if i <= 0 && j <= 0 {
        seq![]
    } else if j <= 0 {
        collect_upto(p, incl, strategy, i - 1, p.units@[i - 1].1@.len() as int)
    } else {
        let g = collect_upto(p, incl, strategy, i, j - 1);
        if incl[i] {
            match plan_entry(p, i, j - 1, strategy) {
                Some(pl) => add_planned(g, p.units@[i].0@, pl),
                None => g,
            }
        } else {
            g
        }
    }
}

/// The name of the package of a planned update.
pub open spec fn planned_name(p: Packages, pl: PlannedUpdate) -> Seq<char> {
    p.packages@[pl.package].purl.name_view()
}

/// Where an update goes in a list kept in name order: after every update
/// whose name is not greater.
pub open spec fn name_pos(s: Seq<PlannedUpdate>, x: PlannedUpdate, p: Packages) -> int
    decreases s.len(),
{
    if s.len() == 0 {
        0
    } else if lex_order(planned_name(p, s.last()), planned_name(p, x)) > 0 {
        name_pos(s.drop_last(), x, p)
    } else {
        s.len() as int
    }
}

/// The updates in name order; of equal names, the earlier first.
pub open spec fn sort_by_name(s: Seq<PlannedUpdate>, p: Packages) -> Seq<PlannedUpdate>
    decreases s.len(),
{
    if s.len() == 0 {
        seq![]
    } else {
        let r = sort_by_name(s.drop_last(), p);
        r.insert(name_pos(r, s.last(), p), s.last())
    }
}

/// The updates of every included unit, grouped by unit in unit order, each
/// group in name order.
pub open spec fn resolved(p: Packages, incl: Seq<bool>, strategy: VersionStrategy) -> Seq<(UnitView, Seq<PlannedUpdate>)> {
    collect_upto(p, incl, strategy, p.units@.len() as int, 0).map_values(
        |g: (UnitView, Seq<PlannedUpdate>)| (g.0, sort_by_name(g.1, p)),
    )
}

/// Swapping the texts flips their order.
pub proof fn lemma_lex_antisym(a: Seq<char>, b: Seq<char>)
    ensures
        lex_order(a, b) == -lex_order(b, a),
        lex_order(a, b) == 0 <==> a == b,
        -1 <= lex_order(a, b) <= 1,
    decreases a.len(),
{
    if a.len() > 0 && b.len() > 0 && a[0] == b[0] {
        lemma_lex_antisym(a.drop_first(), b.drop_first());
        if a.drop_first() == b.drop_first() {
            assert(a =~= seq![a[0]] + a.drop_first());
            assert(b =~= seq![b[0]] + b.drop_first());
        }
    } else if a.len() == 0 && b.len() == 0 {
        assert(a =~= b);
    }
}

/// The order of texts is transitive.
pub proof fn lemma_lex_trans(a: Seq<char>, b: Seq<char>, c: Seq<char>)
    ensures
        lex_order(a, b) <= 0 && lex_order(b, c) <= 0 ==> lex_order(a, c) <= 0,
        lex_order(a, b) < 0 && lex_order(b, c) <= 0 ==> lex_order(a, c) < 0,
        lex_order(a, b) <= 0 && lex_order(b, c) < 0 ==> lex_order(a, c) < 0,
    decreases a.len(),
{
    lemma_lex_antisym(a, b);
    lemma_lex_antisym(b, c);
    lemma_lex_antisym(a, c);
    if a.len() > 0 && b.len() > 0 && c.len() > 0 && a[0] == b[0] && b[0] == c[0] {
        lemma_lex_trans(a.drop_first(), b.drop_first(), c.drop_first());
    }
}

/// The order of units is antisymmetric, and 0 only for units of the same
/// kind and, for projects, the same name.
pub proof fn lemma_unit_order_antisym(a: UnitView, b: UnitView)
    ensures
        unit_order(a, b) == -unit_order(b, a),
        -1 <= unit_order(a, b) <= 1,
{
    match (a, b) {
        (UnitView::Project { name: x, .. }, UnitView::Project { name: y, .. }) => lemma_lex_antisym(x, y),
        _ => {},
    }
}

/// The order of units is transitive.
pub proof fn lemma_unit_order_trans(a: UnitView, b: UnitView, c: UnitView)
    ensures
        unit_order(a, b) <= 0 && unit_order(b, c) <= 0 ==> unit_order(a, c) <= 0,
        unit_order(a, b) < 0 && unit_order(b, c) <= 0 ==> unit_order(a, c) < 0,
        unit_order(a, b) <= 0 && unit_order(b, c) < 0 ==> unit_order(a, c) < 0,
{
    match (a, b, c) {
        (UnitView::Project { name: x, .. }, UnitView::Project { name: y, .. }, UnitView::Project { name: z, .. }) => {
            lemma_lex_trans(x, y, z);
        },
        _ => {},
    }
}

/// Groups in strictly increasing unit order.
pub open spec fn units_ascending(groups: Seq<(UnitView, Seq<PlannedUpdate>)>) -> bool {
    forall|i: int, j: int| 0 <= i < j < groups.len() ==> unit_order(#[trigger] groups[i].0, #[trigger] groups[j].0) < 0
}

/// In ascending groups, a unit's place has the units before it in front and
/// the others behind.
proof fn lemma_insert_pos(groups: Seq<(UnitView, Seq<PlannedUpdate>)>, u: UnitView)
    requires
        units_ascending(groups),
    ensures
        0 <= insert_pos(groups, u) <= groups.len(),
        forall|i: int| 0 <= i < insert_pos(groups, u) ==> unit_order(#[trigger] groups[i].0, u) < 0,
        forall|i: int| insert_pos(groups, u) <= i < groups.len() ==> unit_order(#[trigger] groups[i].0, u) >= 0,
    decreases groups.len(),
{
    if groups.len() > 0 {
        let last = groups.last().0;
        if unit_order(last, u) < 0 {
            assert forall|i: int| 0 <= i < groups.len() implies unit_order(#[trigger] groups[i].0, u) < 0 by {
                if i < groups.len() - 1 {
                    lemma_unit_order_trans(groups[i].0, last, u);
                }
            }
        } else {
            let d = groups.drop_last();
            assert(units_ascending(d)) by {
                assert forall|i: int, j: int| 0 <= i < j < d.len() implies unit_order(#[trigger] d[i].0, #[trigger] d[j].0) < 0 by {
                    assert(d[i] == groups[i] && d[j] == groups[j]);
                }
            }
            lemma_insert_pos(d, u);
            assert forall|i: int| 0 <= i < insert_pos(groups, u) implies unit_order(#[trigger] groups[i].0, u) < 0 by {
                assert(d[i] == groups[i]);
            }
            assert forall|i: int| insert_pos(groups, u) <= i < groups.len() implies unit_order(#[trigger] groups[i].0, u) >= 0 by {
                if i < groups.len() - 1 {
                    assert(d[i] == groups[i]);
                }
            }
        }
    }
}

/// Adding an update keeps the groups ascending.
proof fn lemma_add_planned_ascending(groups: Seq<(UnitView, Seq<PlannedUpdate>)>, u: UnitView, pl: PlannedUpdate)
    requires
        units_ascending(groups),
    ensures
        units_ascending(add_planned(groups, u, pl)),
{
    lemma_insert_pos(groups, u);
    let pos = insert_pos(groups, u);
    let r = add_planned(groups, u, pl);
    if pos < groups.len() && unit_order(groups[pos].0, u) == 0 {
        assert forall|i: int, j: int| 0 <= i < j < r.len() implies unit_order(#[trigger] r[i].0, #[trigger] r[j].0) < 0 by {
            assert(r[i].0 == groups[i].0 && r[j].0 == groups[j].0);
        }
    } else {
        assert forall|i: int, j: int| 0 <= i < j < r.len() implies unit_order(#[trigger] r[i].0, #[trigger] r[j].0) < 0 by {
            if j < pos {
                assert(r[i] == groups[i] && r[j] == groups[j]);
            } else if j == pos {
                assert(r[i] == groups[i]);
            } else if i < pos {
                assert(r[i] == groups[i] && r[j] == groups[j - 1]);
                lemma_unit_order_antisym(groups[j - 1].0, u);
                lemma_unit_order_trans(groups[i].0, u, groups[j - 1].0);
            } else if i == pos {
                assert(r[j] == groups[j - 1]);
                lemma_unit_order_antisym(groups[j - 1].0, u);
                if unit_order(groups[j - 1].0, u) == 0 {
                    if j - 1 > pos {
                        lemma_unit_order_trans(groups[pos].0, groups[j - 1].0, u);
                        lemma_unit_order_antisym(groups[pos].0, u);
                    }
                }
            } else {
                assert(r[i] == groups[i - 1] && r[j] == groups[j - 1]);
            }
        }
    }
}

/// The groups collected so far are ascending.
proof fn lemma_collect_ascending(p: Packages, incl: Seq<bool>, strategy: VersionStrategy, i: int, j: int)
    ensures
        units_ascending(collect_upto(p, incl, strategy, i, j)),
    decreases i, j,
{
    if i <= 0 && j <= 0 {
    } else if j <= 0 {
        lemma_collect_ascending(p, incl, strategy, i - 1, p.units@[i - 1].1@.len() as int);
    } else {
        lemma_collect_ascending(p, incl, strategy, i, j - 1);
        let g = collect_upto(p, incl, strategy, i, j - 1);
        if incl[i] {
            match plan_entry(p, i, j - 1, strategy) {
                Some(pl) => lemma_add_planned_ascending(g, p.units@[i].0@, pl),
                None => {},
            }
        }
    }
}

/// Updates in name order.
pub open spec fn names_ascending(s: Seq<PlannedUpdate>, p: Packages) -> bool {
    forall|a: int, b: int|
        0 <= a < b < s.len() ==> lex_order(planned_name(p, #[trigger] s[a]), planned_name(p, #[trigger] s[b])) <= 0
}

/// In updates in name order, an update's place has the names up to its own
/// in front and the greater ones behind.
proof fn lemma_name_pos(s: Seq<PlannedUpdate>, x: PlannedUpdate, p: Packages)
    requires
        names_ascending(s, p),
    ensures
        0 <= name_pos(s, x, p) <= s.len(),
        forall|a: int| 0 <= a < name_pos(s, x, p) ==> lex_order(planned_name(p, #[trigger] s[a]), planned_name(p, x)) <= 0,
        forall|a: int| name_pos(s, x, p) <= a < s.len() ==> lex_order(planned_name(p, #[trigger] s[a]), planned_name(p, x)) > 0,
    decreases s.len(),
{
    if s.len() > 0 {
        let last = s.last();
        if lex_order(planned_name(p, last), planned_name(p, x)) > 0 {
            let d = s.drop_last();
            assert(names_ascending(d, p)) by {
                assert forall|a: int, b: int| 0 <= a < b < d.len() implies lex_order(planned_name(p, #[trigger] d[a]), planned_name(p, #[trigger] d[b])) <= 0 by {
                    assert(d[a] == s[a] && d[b] == s[b]);
                }
            }
            lemma_name_pos(d, x, p);
            assert forall|a: int| 0 <= a < name_pos(s, x, p) implies lex_order(planned_name(p, #[trigger] s[a]), planned_name(p, x)) <= 0 by {
                assert(d[a] == s[a]);
            }
            assert forall|a: int| name_pos(s, x, p) <= a < s.len() implies lex_order(planned_name(p, #[trigger] s[a]), planned_name(p, x)) > 0 by {
                if a < s.len() - 1 {
                    assert(d[a] == s[a]);
                }
            }
        } else {
            assert forall|a: int| 0 <= a < s.len() implies lex_order(planned_name(p, #[trigger] s[a]), planned_name(p, x)) <= 0 by {
                if a < s.len() - 1 {
                    lemma_lex_trans(planned_name(p, s[a]), planned_name(p, last), planned_name(p, x));
                }
            }
        }
    }
}

/// Sorting by name gives updates in name order.
proof fn lemma_sort_by_name_ascending(s: Seq<PlannedUpdate>, p: Packages)
    ensures
        names_ascending(sort_by_name(s, p), p),
    decreases s.len(),
{
    if s.len() > 0 {
        let r = sort_by_name(s.drop_last(), p);
        lemma_sort_by_name_ascending(s.drop_last(), p);
        let x = s.last();
        lemma_name_pos(r, x, p);
        let pos = name_pos(r, x, p);
        let t = r.insert(pos, x);
        assert forall|a: int, b: int| 0 <= a < b < t.len() implies lex_order(planned_name(p, #[trigger] t[a]), planned_name(p, #[trigger] t[b])) <= 0 by {
            if b < pos {
                assert(t[a] == r[a] && t[b] == r[b]);
            } else if b == pos {
                assert(t[a] == r[a]);
            } else if a < pos {
                assert(t[a] == r[a] && t[b] == r[b - 1]);
                lemma_lex_antisym(planned_name(p, r[b - 1]), planned_name(p, x));
                lemma_lex_trans(planned_name(p, r[a]), planned_name(p, x), planned_name(p, r[b - 1]));
            } else if a == pos {
                assert(t[b] == r[b - 1]);
                lemma_lex_antisym(planned_name(p, r[b - 1]), planned_name(p, x));
            } else {
                assert(t[a] == r[a - 1] && t[b] == r[b - 1]);
            }
        }
    }
}

/// The updates come grouped by unit in strictly increasing unit order (the
/// workspace, then projects by name, then the global unit), and each unit's
/// updates in the order of their package names.
pub proof fn law_updates_ordered(p: Packages, incl: Seq<bool>, strategy: VersionStrategy)
    ensures
        units_ascending(resolved(p, incl, strategy)),
        forall|g: int|
            0 <= g < resolved(p, incl, strategy).len() ==> names_ascending(#[trigger] resolved(p, incl, strategy)[g].1, p),
{
    let c = collect_upto(p, incl, strategy, p.units@.len() as int, 0);
    lemma_collect_ascending(p, incl, strategy, p.units@.len() as int, 0);
    let r = resolved(p, incl, strategy);
    assert forall|i: int, j: int| 0 <= i < j < r.len() implies unit_order(#[trigger] r[i].0, #[trigger] r[j].0) < 0 by {
        assert(r[i].0 == c[i].0 && r[j].0 == c[j].0);
    }
    assert forall|g: int| 0 <= g < r.len() implies names_ascending(#[trigger] r[g].1, p) by {
        assert(r[g].1 == sort_by_name(c[g].1, p));
        lemma_sort_by_name_ascending(c[g].1, p);
    }
}

/// Whether exec updates are the planned ones, one for one.
pub open spec fn updates_are(us: Seq<Update>, p: Packages, pls: Seq<PlannedUpdate>) -> bool {
    us.len() == pls.len() && forall|k: int| 0 <= k < us.len() ==> update_is(#[trigger] us[k], p, pls[k])
}

/// Whether exec groups are the planned ones, one for one.
pub open spec fn groups_are(
    gs: Seq<(&Unit, Vec<Update>)>,
    p: Packages,
    spec: Seq<(UnitView, Seq<PlannedUpdate>)>,
) -> bool {
    gs.len() == spec.len() && forall|g: int|
        0 <= g < gs.len() ==> (#[trigger] gs[g]).0@ == spec[g].0 && updates_are(gs[g].1@, p, spec[g].1)
}

/// Adds an update to the groups.
fn add_update<'a>(
    groups: &mut Vec<(&'a Unit, Vec<Update<'a>>)>,
    unit: &'a Unit,
    u: Update<'a>,
    p: &'a Packages,
    Ghost(spec): Ghost<Seq<(UnitView, Seq<PlannedUpdate>)>>,
    Ghost(pl): Ghost<PlannedUpdate>,
)
    requires
        groups_are(old(groups)@, *p, spec),
        update_is(u, *p, pl),
    ensures
        groups_are(final(groups)@, *p, add_planned(spec, unit@, pl)),
{
    let mut pos: usize = groups.len();
    assert(spec.take(pos as int) =~= spec);
    while pos > 0 && groups[pos - 1].0.order(unit) >= 0
        invariant
            groups@ == old(groups)@,
            groups_are(groups@, *p, spec),
            pos <= groups@.len(),
            insert_pos(spec, unit@) == insert_pos(spec.take(pos as int), unit@),
        decreases pos,
    {
        assert(spec.take(pos as int).drop_last() =~= spec.take(pos - 1));
        pos = pos - 1;
    }
    proof {
        if pos > 0 {
            assert(spec.take(pos as int).last() == spec[pos - 1]);
        }
        assert(insert_pos(spec.take(pos as int), unit@) == pos);
    }
    if pos < groups.len() && groups[pos].0.order(unit) == 0 {
        let mut es = Vec::new();
        std::mem::swap(&mut es, &mut groups[pos].1);
        es.push(u);
        groups[pos].1 = es;
        proof {
            let ns = add_planned(spec, unit@, pl);
            assert(ns == spec.update(pos as int, (spec[pos as int].0, spec[pos as int].1.push(pl))));
            assert forall|g: int| 0 <= g < groups@.len() implies (#[trigger] groups@[g]).0@ == ns[g].0
                && updates_are(groups@[g].1@, *p, ns[g].1) by {
                if g == pos {
                    assert(groups@[g].1@ =~= old(groups)@[g].1@.push(u));
                    assert forall|k: int| 0 <= k < groups@[g].1@.len() implies update_is(#[trigger] groups@[g].1@[k], *p, ns[g].1[k]) by {
                        if k < old(groups)@[g].1@.len() {
                            assert(old(groups)@[g].1@[k] == groups@[g].1@[k]);
                        }
                    }
                }
            }
        }
    } else {
        let mut es = Vec::new();
        es.push(u);
        groups.insert(pos, (unit, es));
        proof {
            let ns = add_planned(spec, unit@, pl);
            assert(ns == spec.insert(pos as int, (unit@, seq![pl])));
            assert forall|g: int| 0 <= g < groups@.len() implies (#[trigger] groups@[g]).0@ == ns[g].0
                && updates_are(groups@[g].1@, *p, ns[g].1) by {
                if g < pos {
                    assert(groups@[g] == old(groups)@[g]);
                } else if g == pos {
                    assert(groups@[g].1@ =~= seq![u]);
                } else {
                    assert(groups@[g] == old(groups)@[g - 1]);
                }
            }
        }
    }
}

/// Sorts updates by name, as `sort_by_name` does.
fn sort_updates<'a>(us: Vec<Update<'a>>, p: &'a Packages, Ghost(pls): Ghost<Seq<PlannedUpdate>>) -> (r: Vec<Update<'a>>)
    requires
        updates_are(us@, *p, pls),
    ensures
        updates_are(r@, *p, sort_by_name(pls, *p)),
{
    let mut out: Vec<Update<'a>> = Vec::new();
    let total = us.len();
    let mut rest = us;
    let mut taken: usize = 0;
    let ghost n = pls.len();
    assert(n == total);
    // Consume from the front: reverse into a stack first.
    let mut stack: Vec<Update<'a>> = Vec::new();
    while rest.len() > 0
        invariant
            rest@.len() + stack@.len() == n,
            forall|k: int| 0 <= k < rest@.len() ==> update_is(#[trigger] rest@[k], *p, pls[k]),
            forall|k: int| 0 <= k < stack@.len() ==> update_is(#[trigger] stack@[k], *p, pls[n - 1 - k]),
            pls.len() == n,
        decreases rest@.len(),
    {
        let x = rest.pop().unwrap();
        stack.push(x);
    }
    while stack.len() > 0
        invariant
            stack@.len() + taken == n,
            n == total,
            pls.len() == n,
            forall|k: int| 0 <= k < stack@.len() ==> update_is(#[trigger] stack@[k], *p, pls[n - 1 - k]),
            updates_are(out@, *p, sort_by_name(pls.take(taken as int), *p)),
        decreases stack@.len(),
    {
        let x = stack.pop().unwrap();
        let ghost xs = pls[taken as int];
        let ghost sorted = sort_by_name(pls.take(taken as int), *p);
        let xn = chars_of(x.name);
        let mut pos: usize = out.len();
        assert(sorted.take(pos as int) =~= sorted);
        while pos > 0 && lex_order_chars(&chars_of(out[pos - 1].name), &xn) > 0
            invariant
                updates_are(out@, *p, sorted),
                update_is(x, *p, xs),
                xn@ == x.name@,
                pos <= out@.len(),
                name_pos(sorted, xs, *p) == name_pos(sorted.take(pos as int), xs, *p),
            decreases pos,
        {
            assert(sorted.take(pos as int).drop_last() =~= sorted.take(pos - 1));
            pos = pos - 1;
        }
        proof {
            if pos > 0 {
                assert(sorted.take(pos as int).last() == sorted[pos - 1]);
            }
            assert(name_pos(sorted.take(pos as int), xs, *p) == pos);
            assert(pls.take(taken + 1).drop_last() =~= pls.take(taken as int));
        }
        let ghost old_out = out@;
        out.insert(pos, x);
        taken = taken + 1;
        proof {
            let ns = sort_by_name(pls.take(taken as int), *p);
            assert(ns == sorted.insert(pos as int, xs));
            assert forall|k: int| 0 <= k < out@.len() implies update_is(#[trigger] out@[k], *p, ns[k]) by {
                if k < pos {
                    assert(out@[k] == old_out[k]);
                } else if k > pos {
                    assert(out@[k] == old_out[k - 1]);
                }
            }
        }
    }
    assert(pls.take(n as int) =~= pls);
    out
}

/// The updates of the units that are included, grouped by unit in unit
/// order, each group in name order.
pub fn resolve_updates_for<'a>(
    packages: &'a Packages,
    strategy: &VersionStrategy,
    included: &Vec<bool>,
) -> (r: Vec<(&'a Unit, Vec<Update<'a>>)>)
    requires
        packages_wf(*packages),
        included@.len() == packages.units@.len(),
    ensures
        groups_are(r@, *packages, resolved(*packages, included@, *strategy)),
{
    let mut groups: Vec<(&'a Unit, Vec<Update<'a>>)> = Vec::new();
    let mut i: usize = 0;
    while i < packages.units.len()
        invariant
            packages_wf(*packages),
            included@.len() == packages.units@.len(),
            i <= packages.units@.len(),
            groups_are(groups@, *packages, collect_upto(*packages, included@, *strategy, i as int, 0)),
        decreases packages.units@.len() - i,
    {
        let unit = &packages.units[i].0;
        let mut j: usize = 0;
        while j < packages.units[i].1.len()
            invariant
                packages_wf(*packages),
                included@.len() == packages.units@.len(),
                i < packages.units@.len(),
                unit == &packages.units@[i as int].0,
                j <= packages.units@[i as int].1@.len(),
                groups_are(groups@, *packages, collect_upto(*packages, included@, *strategy, i as int, j as int)),
            decreases packages.units@[i as int].1@.len() - j,
        {
            proof {
                if j == 0 && i > 0 {
                    assert(collect_upto(*packages, included@, *strategy, i as int, 0) == collect_upto(
                        *packages,
                        included@,
                        *strategy,
                        i - 1,
                        packages.units@[i - 1].1@.len() as int,
                    ));
                }
            }
            let ghost before = collect_upto(*packages, included@, *strategy, i as int, j as int);
            if included[i] {
                match plan_entry_exec(packages, i, j, strategy) {
                    Some(u) => {
                        add_update(
                            &mut groups,
                            unit,
                            u,
                            packages,
                            Ghost(before),
                            Ghost(plan_entry(*packages, i as int, j as int, *strategy)->0),
                        );
                    },
                    None => {},
                }
            }
            j = j + 1;
        }
        proof {
            if packages.units@[i as int].1@.len() == 0 && i > 0 {
                assert(collect_upto(*packages, included@, *strategy, i as int, 0) == collect_upto(
                    *packages,
                    included@,
                    *strategy,
                    i - 1,
                    packages.units@[i - 1].1@.len() as int,
                ));
            }
            assert(collect_upto(*packages, included@, *strategy, i + 1, 0) == collect_upto(
                *packages,
                included@,
                *strategy,
                i as int,
                packages.units@[i as int].1@.len() as int,
            ));
        }
        i = i + 1;
    }
    let ghost unsorted = collect_upto(*packages, included@, *strategy, packages.units@.len() as int, 0);
    let mut out: Vec<(&'a Unit, Vec<Update<'a>>)> = Vec::new();
    let mut rest = groups;
    let mut stack: Vec<(&'a Unit, Vec<Update<'a>>)> = Vec::new();
    let ghost n = unsorted.len();
    while rest.len() > 0
        invariant
            rest@.len() + stack@.len() == n,
            unsorted.len() == n,
            forall|g: int|
                0 <= g < rest@.len() ==> (#[trigger] rest@[g]).0@ == unsorted[g].0 && updates_are(rest@[g].1@, *packages, unsorted[g].1),
            forall|g: int|
                0 <= g < stack@.len() ==> (#[trigger] stack@[g]).0@ == unsorted[n - 1 - g].0 && updates_are(stack@[g].1@, *packages, unsorted[n - 1 - g].1),
        decreases rest@.len(),
    {
        let x = rest.pop().unwrap();
        stack.push(x);
    }
    while stack.len() > 0
        invariant
            stack@.len() + out@.len() == n,
            unsorted.len() == n,
            forall|g: int|
                0 <= g < stack@.len() ==> (#[trigger] stack@[g]).0@ == unsorted[n - 1 - g].0 && updates_are(stack@[g].1@, *packages, unsorted[n - 1 - g].1),
            forall|g: int|
                0 <= g < out@.len() ==> (#[trigger] out@[g]).0@ == unsorted[g].0 && updates_are(out@[g].1@, *packages, sort_by_name(unsorted[g].1, *packages)),
        decreases stack@.len(),
    {
        let (unit, us) = stack.pop().unwrap();
        let ghost k = out@.len();
        let sorted = sort_updates(us, packages, Ghost(unsorted[k as int].1));
        out.push((unit, sorted));
    }
    out
}

/// The updates of the units that the filter selects, grouped by unit in
/// unit order, each group in name order. Which workspace a filter other
/// than `"workspace"` selects depends on how the platform splits paths.
pub fn resolve_updates<'a>(
    packages: &'a Packages,
    strategy: &VersionStrategy,
    filter: &[String],
) -> (r: Vec<(&'a Unit, Vec<Update<'a>>)>)
    requires
        packages_wf(*packages),
    ensures
        exists|incl: Seq<bool>|
            incl.len() == packages.units@.len() && (forall|i: int|
                0 <= i < incl.len() ==> filters_select(#[trigger] packages.units@[i].0@, filter@, incl[i]))
                && groups_are(r@, *packages, resolved(*packages, incl, *strategy)),
{
    let mut included: Vec<bool> = Vec::new();
    let mut i: usize = 0;
    while i < packages.units.len()
        invariant
            i <= packages.units@.len(),
            included@.len() == i,
            forall|k: int|
                0 <= k < i ==> filters_select(#[trigger] packages.units@[k].0@, filter@, included@[k]),
        decreases packages.units@.len() - i,
    {
        included.push(matches_filter(filter, &packages.units[i].0));
        i = i + 1;
    }
    let r = resolve_updates_for(packages, strategy, &included);
    assert(included@.len() == packages.units@.len());
    r
}


/// The name shown for an update: the package name, and the alias in
/// parentheses where the dependency is renamed to something else.
pub open spec fn display_name_spec(name: Seq<char>, rename: Option<Seq<char>>) -> Seq<char> {
    match rename {
        Some(a) => if a != name {
            name + seq![' ', '('] + a + seq![')']
        } else {
            name
        },
        None => name,
    }
}

pub fn display_name(update: &Update) -> (r: String)
    ensures
        r@ == display_name_spec(update.name@, opt_chars(update.usage.rename)),
{
    match &update.usage.rename {
        Some(alias) => {
            if !str_eq(alias.as_str(), update.name) {
                let mut out = chars_of(update.name);
                out.push(' ');
                out.push('(');
                extend_chars(&mut out, &chars_of(alias.as_str()));
                out.push(')');
                assert(out@ =~= display_name_spec(update.name@, opt_chars(update.usage.rename)));
                string_of(out.as_slice())
            } else {
                update.name.to_owned()
            }
        },
        None => update.name.to_owned(),
    }
}

/// The name column of an update line: the display name, linked to the
/// repository where the package names one.
pub open spec fn name_cell(update: Update) -> Seq<char> {
    let plain = display_name_spec(update.name@, opt_chars(update.usage.rename));
    match update.package.repository {
        Some(url) => hyperlink_text(normalized_repo_url(url@), plain),
        None => plain,
    }
}

/// The width that the current requirement takes: its length, and 9 more for
/// the ` (yanked)` mark.
pub open spec fn cur_cell_len(update: Update) -> nat {
    let n = byte_len_spec(req_text_of(update.current_req@)) + if update.yanked { 9nat } else { 0nat };
    if n <= usize::MAX { n } else { usize::MAX as nat }
}

pub open spec fn req_text_of(q: Seq<ComparatorView>) -> Seq<char> {
    crate::semver_model::req_text(q)
}

/// The part of an update line before the current requirement's text: a
/// space, the name column padded to `name_width`, two spaces, and the
/// padding of the current requirement to `cur_width`.
pub open spec fn line_head(update: Update, name_width: nat, cur_width: nat) -> Seq<char> {
    let plain = display_name_spec(update.name@, opt_chars(update.usage.rename));
    seq![' '] + name_cell(update) + spaces(sat_sub(name_width as int, byte_len_spec(plain) as int))
        + seq![' ', ' '] + spaces(sat_sub(cur_width as int, cur_cell_len(update) as int))
}

/// `"  →  "`
pub open spec fn arrow_text() -> Seq<char> {
    seq![' ', ' ', '\u{2192}', ' ', ' ']
}

/// `"(yanked)"`
pub open spec fn yanked_text() -> Seq<char> {
    seq!['(', 'y', 'a', 'n', 'k', 'e', 'd', ')']
}

/// `"(yanked)"`
pub fn yanked_mark() -> (r: String)
    ensures
        r@ == yanked_text(),
{
    let v: Vec<char> = vec!['(', 'y', 'a', 'n', 'k', 'e', 'd', ')'];
    string_of(v.as_slice())
}

/// The UTF-8 length of a requirement's text.
fn req_len(q: &SemReq) -> (r: usize)
    ensures
        r == byte_len_spec(req_text_of(q@)),
{
    byte_len(q.to_string().as_str())
}

/// The width of the current requirement's cell.
fn cur_len(update: &Update) -> (r: usize)
    ensures
        r == cur_cell_len(*update),
{
    let n = req_len(update.current_req);
    if update.yanked {
        n.saturating_add(9)
    } else {
        n
    }
}

/// The cell after the current requirement: nothing, or for a yanked
/// requirement a space and the `(yanked)` mark in yellow.
pub open spec fn yanked_cell(out: Seq<char>, yanked: bool) -> bool {
    if yanked {
        out.len() > 0 && out[0] == ' ' && styled(out.skip(1), yanked_text(), TermStyle::Yellow)
    } else {
        out.len() == 0
    }
}

/// The styled parts of an update line: the current requirement in white,
/// the yanked cell, and the new requirement colored by its bump where it
/// differs.
pub open spec fn line_parts(update: Update, cur: Seq<char>, mark: Seq<char>, new: Seq<char>) -> bool {
    &&& styled(cur, req_text_of(update.current_req@), TermStyle::White)
    &&& yanked_cell(mark, update.yanked)
    &&& colorized(new, req_text_of(update.current_req@), req_text_of(update.new_req@), update.bump)
}

/// The line of an update: its head, the styled current requirement and
/// yanked cell, the arrow, the padding of the new requirement to
/// `new_width`, and the colored new requirement.
pub open spec fn update_line_text(update: Update, name_width: nat, cur_width: nat, new_width: nat, out: Seq<char>) -> bool {
    exists|cur: Seq<char>, mark: Seq<char>, new: Seq<char>|
        #[trigger] line_parts(update, cur, mark, new) && out == line_head(update, name_width, cur_width) + cur + mark
            + arrow_text() + spaces(sat_sub(new_width as int, byte_len_spec(req_text_of(update.new_req@)) as int))
            + new
}

/// The cell after the current requirement.
fn yanked_cell_of(yanked: bool) -> (r: Vec<char>)
    ensures
        yanked_cell(r@, yanked),
{
    let mut mark: Vec<char> = Vec::new();
    if yanked {
        mark.push(' ');
        let painted = chars_of(paint(TermStyle::Yellow, yanked_mark().as_str()).as_str());
        extend_chars(&mut mark, &painted);
        assert(mark@.skip(1) =~= painted@);
    }
    mark
}

/// The part of an update line after its head.
fn line_tail(update: &Update, new_width: usize) -> (r: Vec<char>)
    ensures
        exists|cur: Seq<char>, mark: Seq<char>, new: Seq<char>|
            #[trigger] line_parts(*update, cur, mark, new) && r@ == cur + mark + arrow_text() + spaces(
                sat_sub(new_width as int, byte_len_spec(req_text_of(update.new_req@)) as int),
            ) + new,
{
    update.current_req.check_text_ascii();
    update.new_req.check_text_ascii();
    let cur_req_str = update.current_req.to_string();
    let cur_cell = chars_of(paint(TermStyle::White, cur_req_str.as_str()).as_str());
    let mark = yanked_cell_of(update.yanked);
    let new_req_str = update.new_req.to_string();
    let colored = chars_of(colorize_req(cur_req_str.as_str(), new_req_str.as_str(), update.bump).as_str());
    let new_padding = new_width.saturating_sub(byte_len(new_req_str.as_str()));
    let mut out = cur_cell.clone();
    extend_chars(&mut out, &mark);
    let arrow: Vec<char> = vec![' ', ' ', '\u{2192}', ' ', ' '];
    extend_chars(&mut out, &arrow);
    push_spaces(&mut out, new_padding);
    extend_chars(&mut out, &colored);
    proof {
        assert(arrow@ =~= arrow_text());
        assert(line_parts(*update, cur_cell@, mark@, colored@));
    }
    out
}

/// Format a single update as an aligned, colored line: the name (linked to
/// the repository), the current requirement (marked when yanked), an arrow
/// and the colored new requirement, each column padded to its width.
pub fn format_update_line(update: &Update, name_width: usize, cur_width: usize, new_width: usize) -> (r: String)
    ensures
        update_line_text(*update, name_width as nat, cur_width as nat, new_width as nat, r@),
        starts_with(r@, line_head(*update, name_width as nat, cur_width as nat)),
{
    let plain = display_name(update);
    let name_display = match &update.package.repository {
        Some(url) => hyperlink(normalize_repo_url(url.as_str()).as_str(), plain.as_str()),
        None => plain.clone(),
    };
    let plain_len = byte_len(plain.as_str());
    let padding = name_width.saturating_sub(plain_len);
    let mut out: Vec<char> = vec![' '];
    extend_chars(&mut out, &chars_of(name_display.as_str()));
    push_spaces(&mut out, padding);
    out.push(' ');
    out.push(' ');
    let cur_padding = cur_width.saturating_sub(cur_len(update));
    push_spaces(&mut out, cur_padding);
    let ghost head = out@;
    assert(head =~= line_head(*update, name_width as nat, cur_width as nat));
    let tail = line_tail(update, new_width);
    extend_chars(&mut out, &tail);
    proof {
        lemma_line_text(*update, name_width as nat, cur_width as nat, new_width as nat, head, tail@);
        assert(out@ =~= head + tail@);
        assert(out@.take(head.len() as int) =~= head);
    }
    string_of(out.as_slice())
}

/// A line made of its head and a tail of the right parts is the update's
/// line.
proof fn lemma_line_text(update: Update, name_width: nat, cur_width: nat, new_width: nat, head: Seq<char>, tail: Seq<char>)
    requires
        head == line_head(update, name_width, cur_width),
        exists|cur: Seq<char>, mark: Seq<char>, new: Seq<char>|
            #[trigger] line_parts(update, cur, mark, new) && tail == cur + mark + arrow_text() + spaces(
                sat_sub(new_width as int, byte_len_spec(req_text_of(update.new_req@)) as int),
            ) + new,
    ensures
        update_line_text(update, name_width, cur_width, new_width, head + tail),
{
    let sp = spaces(sat_sub(new_width as int, byte_len_spec(req_text_of(update.new_req@)) as int));
    let (c, m, n) = choose|c: Seq<char>, m: Seq<char>, n: Seq<char>|
        #[trigger] line_parts(update, c, m, n) && tail == c + m + arrow_text() + sp + n;
    assert(line_parts(update, c, m, n));
    assert(head + tail =~= head + c + m + arrow_text() + sp + n);
}

/// The largest of some widths, or 0 when there are none.
pub open spec fn max_width(ws: Seq<nat>) -> nat
    decreases ws.len(),
{
    if ws.len() == 0 {
        0
    } else {
        let m = max_width(ws.drop_last());
        if ws.last() > m {
            ws.last()
        } else {
            m
        }
    }
}

/// The column widths of some updates: the widest display name, current
/// requirement cell and new requirement.
pub open spec fn column_widths_spec(us: Seq<Update>) -> (nat, nat, nat) {
    (
        max_width(us.map_values(|u: Update| byte_len_spec(display_name_spec(u.name@, opt_chars(u.usage.rename))))),
        max_width(us.map_values(|u: Update| cur_cell_len(u))),
        max_width(us.map_values(|u: Update| byte_len_spec(req_text_of(u.new_req@)))),
    )
}

/// The column widths of the updates of one unit.
pub fn column_widths(us: &Vec<Update>) -> (r: (usize, usize, usize))
    ensures
        (r.0 as nat, r.1 as nat, r.2 as nat) == column_widths_spec(us@),
{
    let mut a: usize = 0;
    let mut b: usize = 0;
    let mut c: usize = 0;
    let mut i: usize = 0;
    while i < us.len()
        invariant
            i <= us@.len(),
            (a as nat, b as nat, c as nat) == column_widths_spec(us@.take(i as int)),
        decreases us@.len() - i,
    {
        let u = &us[i];
        let x = byte_len(display_name(u).as_str());
        let y = cur_len(u);
        let z = req_len(&u.new_req);
        proof {
            let t = us@.take(i + 1);
            assert(t.drop_last() =~= us@.take(i as int));
            assert(t.map_values(|u: Update| byte_len_spec(display_name_spec(u.name@, opt_chars(u.usage.rename)))).drop_last()
                =~= us@.take(i as int).map_values(|u: Update| byte_len_spec(display_name_spec(u.name@, opt_chars(u.usage.rename)))));
            assert(t.map_values(|u: Update| cur_cell_len(u)).drop_last() =~= us@.take(i as int).map_values(|u: Update| cur_cell_len(u)));
            assert(t.map_values(|u: Update| byte_len_spec(req_text_of(u.new_req@)))
                .drop_last() =~= us@.take(i as int).map_values(|u: Update| byte_len_spec(req_text_of(u.new_req@))));
        }
        if x > a {
            a = x;
        }
        if y > b {
            b = y;
        }
        if z > c {
            c = z;
        }
        i = i + 1;
    }
    assert(us@.take(us@.len() as int) =~= us@);
    (a, b, c)
}

pub open spec fn max_nat(a: nat, b: nat) -> nat {
    if a >= b {
        a
    } else {
        b
    }
}

/// The column widths over the updates of all units: the widest of each
/// column.
pub open spec fn all_widths(groups: Seq<(&Unit, Vec<Update>)>) -> (nat, nat, nat)
    decreases groups.len(),
{
    if groups.len() == 0 {
        (0, 0, 0)
    } else {
        let prev = all_widths(groups.drop_last());
        let w = column_widths_spec(groups.last().1@);
        (max_nat(prev.0, w.0), max_nat(prev.1, w.1), max_nat(prev.2, w.2))
    }
}

/// The column widths of the picker: those over all units, the name column
/// widened so that a line fills a terminal of `term_width` columns up to 40.
pub open spec fn global_widths_spec(groups: Seq<(&Unit, Vec<Update>)>, term_width: int) -> (nat, nat, nat) {
    let w = all_widths(groups);
    let target = if term_width < 40 {
        term_width
    } else {
        40
    };
    (max_nat(w.0, sat_sub(target, (w.1 + w.2 + 4) as int)), w.1, w.2)
}

/// The column widths of the picker on a terminal of `term_width` columns.
pub fn global_column_widths(updates: &Vec<(&Unit, Vec<Update>)>, term_width: usize) -> (r: (usize, usize, usize))
    ensures
        (r.0 as nat, r.1 as nat, r.2 as nat) == global_widths_spec(updates@, term_width as int),
{
    let mut a: usize = 0;
    let mut b: usize = 0;
    let mut c: usize = 0;
    let mut g: usize = 0;
    while g < updates.len()
        invariant
            g <= updates@.len(),
            (a as nat, b as nat, c as nat) == all_widths(updates@.take(g as int)),
        decreases updates@.len() - g,
    {
        let (x, y, z) = column_widths(&updates[g].1);
        proof {
            assert(updates@.take(g + 1).drop_last() =~= updates@.take(g as int));
        }
        if x > a {
            a = x;
        }
        if y > b {
            b = y;
        }
        if z > c {
            c = z;
        }
        g = g + 1;
    }
    proof {
        assert(updates@.take(updates@.len() as int) =~= updates@);
    }
    let target: usize = if term_width < 40 {
        term_width
    } else {
        40
    };
    let fixed = b.saturating_add(c).saturating_add(4);
    let room = target.saturating_sub(fixed);
    let name_w = if room > a {
        room
    } else {
        a
    };
    (name_w, b, c)
}

/// The name of a unit: a project's name; for a workspace its label, from a
/// directory name that fits its manifest's path; `global`.
pub open spec fn unit_name_shape(unit: UnitView, name: Seq<char>) -> bool {
    match unit {
        UnitView::Project { name: n, .. } => name == n,
        UnitView::Workspace { manifest } => workspace_name_fits(manifest, name),
        UnitView::Global => name == global_word(),
    }
}

/// The units and update lines that the picker shows: per unit its name and,
/// per update, its line with the picker's column widths.
pub fn picker_groups(updates: &Vec<(&Unit, Vec<Update>)>, term_width: usize) -> (r: Vec<(String, Vec<String>)>)
    ensures
        r@.len() == updates@.len(),
        forall|i: int| 0 <= i < r@.len() ==> unit_name_shape(updates@[i].0@, (#[trigger] r@[i]).0@),
        forall|i: int|
            0 <= i < r@.len() ==> (#[trigger] r@[i]).1@.len() == updates@[i].1@.len(),
        forall|i: int, j: int|
            #![trigger r@[i].1@[j]]
            0 <= i < r@.len() && 0 <= j < r@[i].1@.len() ==> update_line_text(
                updates@[i].1@[j],
                global_widths_spec(updates@, term_width as int).0,
                global_widths_spec(updates@, term_width as int).1,
                global_widths_spec(updates@, term_width as int).2,
                r@[i].1@[j]@,
            ),
{
    let (name_w, cur_w, new_w) = global_column_widths(updates, term_width);
    let ghost w = global_widths_spec(updates@, term_width as int);
    let mut r: Vec<(String, Vec<String>)> = Vec::new();
    let mut g: usize = 0;
    while g < updates.len()
        invariant
            g <= updates@.len(),
            (name_w as nat, cur_w as nat, new_w as nat) == w,
            w == global_widths_spec(updates@, term_width as int),
            r@.len() == g,
            forall|i: int| 0 <= i < g ==> unit_name_shape(updates@[i].0@, (#[trigger] r@[i]).0@),
            forall|i: int| 0 <= i < g ==> (#[trigger] r@[i]).1@.len() == updates@[i].1@.len(),
            forall|i: int, j: int|
                #![trigger r@[i].1@[j]]
                0 <= i < g && 0 <= j < r@[i].1@.len() ==> update_line_text(updates@[i].1@[j], w.0, w.1, w.2, r@[i].1@[j]@),
        decreases updates@.len() - g,
    {
        let group = &updates[g].1;
        let mut labels: Vec<String> = Vec::new();
        let mut k: usize = 0;
        while k < group.len()
            invariant
                g < updates@.len(),
                *group == updates@[g as int].1,
                k <= group@.len(),
                (name_w as nat, cur_w as nat, new_w as nat) == w,
                labels@.len() == k,
                forall|j: int| #![trigger labels@[j]] 0 <= j < k ==> update_line_text(group@[j], w.0, w.1, w.2, labels@[j]@),
            decreases group@.len() - k,
        {
            labels.push(format_update_line(&group[k], name_w, cur_w, new_w));
            k = k + 1;
        }
        let name = updates[g].0.name();
        r.push((name, labels));
        g = g + 1;
    }
    r
}

/// `"No packages need version requirement updates."`
pub open spec fn no_updates_text() -> Seq<char> {
    "No packages need version requirement updates."@
}

/// A row of the update table: a blank line, the name of unit `g`, or the
/// line of update `k` of unit `g`.
pub enum SummaryRow {
    Blank,
    UnitName(int),
    Line(int, int),
}

/// The rows of the update table for the first `g` units: before every unit
/// but the first a blank line; the unit's name where there are several
/// units; then a line per update.
pub open spec fn summary_layout(updates: Seq<(&Unit, Vec<Update>)>, g: int) -> Seq<SummaryRow>
    decreases g,
{
    if g <= 0 {
        seq![]
    } else {
        let prev = summary_layout(updates, g - 1);
        let blank = if g - 1 > 0 {
            seq![SummaryRow::Blank]
        } else {
            seq![]
        };
        let name = if updates.len() > 1 {
            seq![SummaryRow::UnitName(g - 1)]
        } else {
            seq![]
        };
        prev + blank + name + Seq::new(updates[g - 1].1@.len(), |k: int| SummaryRow::Line(g - 1, k))
    }
}

/// The row of a unit's name: the name, in bold.
pub open spec fn unit_name_row(unit: UnitView, text: Seq<char>) -> bool {
    exists|n: Seq<char>| #[trigger] unit_name_shape(unit, n) && styled(text, n, TermStyle::Bold)
}

/// Whether a text is the row: empty for a blank line; the unit's name,
/// styled, for a unit; the update's line, with its unit's column widths, for
/// an update.
pub open spec fn row_is(updates: Seq<(&Unit, Vec<Update>)>, row: SummaryRow, text: Seq<char>) -> bool {
    match row {
        SummaryRow::Blank => text.len() == 0,
        SummaryRow::UnitName(g) => unit_name_row(updates[g].0@, text),
        SummaryRow::Line(g, k) => {
            let w = column_widths_spec(updates[g].1@);
            update_line_text(updates[g].1@[k], w.0, w.1, w.2, text)
        },
    }
}

/// The lines of the update table, grouped by unit: one message when there
/// is nothing to update; else per unit, after a blank line for every unit
/// but the first, the unit's name (when there are several units) and one
/// aligned line per update.
pub fn summary_lines(updates: &Vec<(&Unit, Vec<Update>)>) -> (r: Vec<String>)
    ensures
        updates@.len() == 0 ==> r@.len() == 1 && r@[0]@ == no_updates_text(),
        updates@.len() > 0 ==> r@.len() == summary_layout(updates@, updates@.len() as int).len() && forall|i: int|
            0 <= i < r@.len() ==> row_is(updates@, summary_layout(updates@, updates@.len() as int)[i], #[trigger] r@[i]@),
{
    let mut lines: Vec<String> = Vec::new();
    if updates.len() == 0 {
        lines.push("No packages need version requirement updates.".to_owned());
        return lines;
    }
    let multi_unit = updates.len() > 1;
    let mut first = true;
    let mut g: usize = 0;
    while g < updates.len()
        invariant
            g <= updates@.len(),
            first == (g == 0),
            multi_unit == (updates@.len() > 1),
            lines@.len() == summary_layout(updates@, g as int).len(),
            forall|i: int|
                0 <= i < lines@.len() ==> row_is(updates@, summary_layout(updates@, g as int)[i], #[trigger] lines@[i]@),
        decreases updates@.len() - g,
    {
        let (unit, unit_updates) = (&updates[g].0, &updates[g].1);
        let ghost base = lines@;
        let ghost layout = summary_layout(updates@, g + 1);
        let ghost prev = summary_layout(updates@, g as int);
        let ghost mut name_text: Seq<char> = seq![];
        let ghost mut name_row: Seq<char> = seq![];
        if multi_unit {
            if !first {
                lines.push(String::new());
            }
            let name = unit.name();
            let painted = paint(TermStyle::Bold, name.as_str());
            proof {
                name_text = name@;
                name_row = painted@;
                assert(unit_name_shape(updates@[g as int].0@, name_text));
            }
            lines.push(painted);
        } else if !first {
            lines.push(String::new());
        }
        first = false;
        let ghost head_len = lines@.len();
        proof {
            assert(layout == prev + (if g > 0 { seq![SummaryRow::Blank] } else { seq![] }) + (if multi_unit {
                seq![SummaryRow::UnitName(g as int)]
            } else {
                seq![]
            }) + Seq::new(updates@[g as int].1@.len(), |k: int| SummaryRow::Line(g as int, k)));
            assert forall|i: int| 0 <= i < lines@.len() implies row_is(updates@, layout[i], #[trigger] lines@[i]@) by {
                if i < base.len() {
                    assert(lines@[i] == base[i]);
                    assert(layout[i] == prev[i]);
                    assert(row_is(updates@, prev[i], base[i]@));
                } else if i == base.len() && g > 0 {
                    assert(layout[i] == SummaryRow::Blank);
                } else {
                    assert(layout[i] == SummaryRow::UnitName(g as int));
                    assert(lines@[i]@ == name_row);
                    assert(unit_name_shape(updates@[g as int].0@, name_text));
                }
            }
        }
        let (name_w, cur_w, new_w) = column_widths(unit_updates);
        let mut k: usize = 0;
        while k < unit_updates.len()
            invariant
                g < updates@.len(),
                *unit_updates == updates@[g as int].1,
                k <= unit_updates@.len(),
                layout == summary_layout(updates@, g + 1),
                (name_w as nat, cur_w as nat, new_w as nat) == column_widths_spec(updates@[g as int].1@),
                lines@.len() == head_len + k,
                head_len + unit_updates@.len() == layout.len(),
                forall|x: int| 0 <= x < unit_updates@.len() ==> layout[head_len + x] == SummaryRow::Line(g as int, x),
                forall|i: int| 0 <= i < lines@.len() ==> row_is(updates@, layout[i], #[trigger] lines@[i]@),
            decreases unit_updates@.len() - k,
        {
            assert(unit_updates@[k as int] == updates@[g as int].1@[k as int]);
            let line = format_update_line(&unit_updates[k], name_w, cur_w, new_w);
            let ghost before = lines@;
            lines.push(line);
            proof {
                assert forall|i: int| 0 <= i < lines@.len() implies row_is(updates@, layout[i], #[trigger] lines@[i]@) by {
                    if i < before.len() {
                        assert(lines@[i] == before[i]);
                    } else {
                        assert(layout[i] == SummaryRow::Line(g as int, k as int));
                    }
                }
            }
            k = k + 1;
        }
        g = g + 1;
    }
    lines
}


/// An update's yanked mark tells whether the current version, the one its
/// requirement names, is yanked: the first published version equal to it is
/// marked yanked. It does not depend on the target, so every strategy marks
/// the same requirement alike.
pub proof fn law_yanked_mark_is_current(p: Packages, i: int, j: int, s1: VersionStrategy, s2: VersionStrategy)
    requires
        0 <= i < p.units@.len(),
        0 <= j < p.units@[i].1@.len(),
    ensures
        plan_entry(p, i, j, s1) matches Some(u) ==> {
            let vs = p.packages@[p.units@[i].1@[j].2 as int].versions@;
            u.yanked <==> (current_version_spec(p.units@[i].1@[j].0@) matches Some(c) && exists|k: int|
                0 <= k < vs.len() && (#[trigger] vs[k]).version@ == c && vs[k].yanked && forall|l: int|
                    0 <= l < k ==> (#[trigger] vs[l]).version@ != c)
        },
        plan_entry(p, i, j, s1) matches Some(u1) ==> (plan_entry(p, i, j, s2) matches Some(u2) ==> u1.yanked
            == u2.yanked),
{
}

/// The name shown for an update is the package's name; a dependency renamed
/// to another alias shows the alias after it, in parentheses.
pub proof fn law_display_name_starts_with_package(name: Seq<char>, rename: Option<Seq<char>>)
    ensures
        display_name_spec(name, rename).take(name.len() as int) == name,
        name.len() <= display_name_spec(name, rename).len(),
        rename is Some && rename->Some_0 != name ==> display_name_spec(name, rename).skip(name.len() as int)
            == seq![' ', '('] + rename->Some_0 + seq![')'],
        !(rename is Some && rename->Some_0 != name) ==> display_name_spec(name, rename) == name,
{
    let d = display_name_spec(name, rename);
    assert(d.take(name.len() as int) =~= name);
    if let Some(a) = rename {
        if a != name {
            assert(d.skip(name.len() as int) =~= seq![' ', '('] + a + seq![')']);
        }
    }
}

} // verus!
