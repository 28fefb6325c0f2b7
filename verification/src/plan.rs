//! Which manifest edits an update makes: for each chosen update, every usage
//! of the package with the same unit and requirement is rewritten, the
//! edits are grouped by manifest, and each manifest gets each edit once.

use vstd::prelude::*;
use crate::text::opt_chars;
use crate::semver_model::{SemReq, ComparatorView, req_text};
use crate::package::{dep_kind_section, DepKind, Package, Unit, UnitView, Usage};
use crate::manifest::{ManifestEdit, EditView, string_views};
use crate::update::str_eq;
use vstd::seq_lib::lemma_seq_contains_after_push;

verus! {

/// The section that holds a usage's requirement: `workspace.dependencies`
/// for the workspace, the table of its kind for a project.
pub open spec fn section_for(unit: UnitView, kind: DepKind) -> Seq<Seq<char>> {
    match unit {
        UnitView::Workspace { .. } => seq!["workspace"@, "dependencies"@],
        _ => seq![dep_kind_section(kind)],
    }
}

/// The manifest of a unit, where it has one.
pub open spec fn unit_manifest(unit: UnitView) -> Option<Seq<char>> {
    match unit {
        UnitView::Project { manifest, .. } => Some(manifest),
        UnitView::Workspace { manifest } => Some(manifest),
        UnitView::Global => None,
    }
}

/// Whether usage `k` of an update's package is rewritten: it has the unit
/// and the requirement of the chosen usage, and a manifest.
pub open spec fn usage_rewritten(item: (&Usage, &Package, SemReq), k: int) -> bool {
    let u = item.1.usages@[k];
    &&& 0 <= k < item.1.usages@.len()
    &&& u.unit@ == item.0.unit@
    &&& u.req@ == item.0.req@
    &&& unit_manifest(u.unit@) is Some
}

/// The edit that rewrites usage `k` of an update's package, with its
/// manifest.
pub open spec fn edit_of(item: (&Usage, &Package, SemReq), k: int) -> (Seq<char>, EditView) {
    let u = item.1.usages@[k];
    (
        unit_manifest(u.unit@)->Some_0,
        EditView {
            section: section_for(u.unit@, u.kind),
            key: match u.rename {
                Some(r) => r@,
                None => item.1.purl.name_view(),
            },
            new_req: item.2@,
            old_req: u.req@,
            preserve_bare: true,
        },
    )
}

/// The edits of the updates before update `i`'s usage `k`, in order.
pub open spec fn candidate_edits(items: Seq<(&Usage, &Package, SemReq)>, i: int, k: int) -> Seq<(Seq<char>, EditView)>
    decreases i, k,
{
    if i <= 0 && k <= 0 {
        seq![]
    } else if k <= 0 {
        candidate_edits(items, i - 1, items[i - 1].1.usages@.len() as int)
    } else {
        let prev = candidate_edits(items, i, k - 1);
        if usage_rewritten(items[i], k - 1) {
            prev.push(edit_of(items[i], k - 1))
        } else {
            prev
        }
    }
}

/// What makes two edits the same: section, key and the texts of both
/// requirements.
pub open spec fn edit_key(e: EditView) -> (Seq<Seq<char>>, Seq<char>, Seq<char>, Seq<char>) {
    (e.section, e.key, req_text(e.old_req), req_text(e.new_req))
}

pub open spec fn edit_keys(es: Seq<EditView>) -> Seq<(Seq<Seq<char>>, Seq<char>, Seq<char>, Seq<char>)> {
    es.map_values(|e: EditView| edit_key(e))
}

/// The edits of a manifest, each once: the first of those that are the
/// same is kept.
pub open spec fn manifest_edits_of(cands: Seq<(Seq<char>, EditView)>, path: Seq<char>) -> Seq<EditView>
    decreases cands.len(),
{
    if cands.len() == 0 {
        seq![]
    } else {
        let prev = manifest_edits_of(cands.drop_last(), path);
        let (p, e) = cands.last();
        if p == path && !edit_keys(prev).contains(edit_key(e)) {
            prev.push(e)
        } else {
            prev
        }
    }
}

/// The manifests of the edits, each once, in the order first met.
pub open spec fn edited_manifests(cands: Seq<(Seq<char>, EditView)>) -> Seq<Seq<char>>
    decreases cands.len(),
{
    if cands.len() == 0 {
        seq![]
    } else {
        let prev = edited_manifests(cands.drop_last());
        if prev.contains(cands.last().0) {
            prev
        } else {
            prev.push(cands.last().0)
        }
    }
}

pub open spec fn edit_views(es: Seq<ManifestEdit>) -> Seq<EditView> {
    es.map_values(|e: ManifestEdit| e@)
}

pub open spec fn plan_manifests(plan: Seq<(String, Vec<ManifestEdit>)>) -> Seq<Seq<char>> {
    plan.map_values(|g: (String, Vec<ManifestEdit>)| g.0@)
}

/// One more edit: its manifest is met if it was not yet, and it joins the
/// edits of its manifest unless the same edit is there.
proof fn lemma_candidates_push(cands: Seq<(Seq<char>, EditView)>, x: (Seq<char>, EditView))
    ensures
        edited_manifests(cands.push(x)) == if edited_manifests(cands).contains(x.0) {
            edited_manifests(cands)
        } else {
            edited_manifests(cands).push(x.0)
        },
        forall|path: Seq<char>|
            #[trigger] manifest_edits_of(cands.push(x), path) == if x.0 == path && !edit_keys(
                manifest_edits_of(cands, path),
            ).contains(edit_key(x.1)) {
                manifest_edits_of(cands, path).push(x.1)
            } else {
                manifest_edits_of(cands, path)
            },
{
    assert(cands.push(x).drop_last() =~= cands);
}

/// A manifest not met has no edits.
proof fn lemma_unmet_no_edits(cands: Seq<(Seq<char>, EditView)>, path: Seq<char>)
    requires
        !edited_manifests(cands).contains(path),
    ensures
        manifest_edits_of(cands, path) == Seq::<EditView>::empty(),
    decreases cands.len(),
{
    if cands.len() > 0 {
        let prev = edited_manifests(cands.drop_last());
        if !prev.contains(cands.last().0) {
            lemma_seq_contains_after_push(prev, cands.last().0, path);
        }
        lemma_unmet_no_edits(cands.drop_last(), path);
    }
}

/// Each manifest is met once.
proof fn lemma_manifests_distinct(cands: Seq<(Seq<char>, EditView)>)
    ensures
        edited_manifests(cands).no_duplicates(),
    decreases cands.len(),
{
    if cands.len() > 0 {
        lemma_manifests_distinct(cands.drop_last());
        let prev = edited_manifests(cands.drop_last());
        let n = cands.last().0;
        if !prev.contains(n) {
            assert forall|i: int, j: int| 0 <= i < j < prev.push(n).len() implies prev.push(n)[i] != prev.push(n)[j] by {
                if j == prev.len() {
                    assert(prev[i] == prev.push(n)[i]);
                }
            }
        }
    }
}

/// The section of a usage's requirement.
fn section_vec(unit: &Unit, kind: DepKind) -> (r: Vec<String>)
    ensures
        string_views(r@) == section_for(unit@, kind),
{
    let mut r: Vec<String> = Vec::new();
    match unit {
        Unit::Workspace { .. } => {
            r.push("workspace".to_owned());
            r.push("dependencies".to_owned());
        },
        _ => {
            r.push(kind.to_string());
        },
    }
    proof {
        assert(string_views(r@) =~= section_for(unit@, kind));
    }
    r
}

/// Whether two sections are the same.
fn same_section(a: &Vec<String>, b: &Vec<String>) -> (r: bool)
    ensures
        r == (string_views(a@) == string_views(b@)),
{
    if a.len() != b.len() {
        proof {
            assert(string_views(a@).len() != string_views(b@).len());
        }
        return false;
    }
    let mut i: usize = 0;
    while i < a.len()
        invariant
            a@.len() == b@.len(),
            i <= a@.len(),
            forall|j: int| 0 <= j < i ==> a@[j]@ == b@[j]@,
        decreases a@.len() - i,
    {
        if !str_eq(a[i].as_str(), b[i].as_str()) {
            proof {
                assert(string_views(a@)[i as int] != string_views(b@)[i as int]);
            }
            return false;
        }
        i = i + 1;
    }
    proof {
        assert(string_views(a@) =~= string_views(b@));
    }
    true
}

/// Whether two edits are the same: section, key and requirement texts.
fn same_edit(a: &ManifestEdit, b: &ManifestEdit) -> (r: bool)
    ensures
        r == (edit_key(a@) == edit_key(b@)),
{
    let ao = a.old_req.to_string();
    let bo = b.old_req.to_string();
    let an = a.new_req.to_string();
    let bn = b.new_req.to_string();
    same_section(&a.section, &b.section) && str_eq(a.toml_key.as_str(), b.toml_key.as_str()) && str_eq(
        ao.as_str(),
        bo.as_str(),
    ) && str_eq(an.as_str(), bn.as_str())
}

/// Whether the same edit is among `es`.
fn has_same_edit(es: &Vec<ManifestEdit>, e: &ManifestEdit) -> (r: bool)
    ensures
        r == edit_keys(edit_views(es@)).contains(edit_key(e@)),
{
    let mut i: usize = 0;
    while i < es.len()
        invariant
            i <= es@.len(),
            forall|j: int| 0 <= j < i ==> edit_key(es@[j]@) != edit_key(e@),
        decreases es@.len() - i,
    {
        if same_edit(&es[i], e) {
            proof {
                assert(edit_keys(edit_views(es@))[i as int] == edit_key(e@));
            }
            return true;
        }
        i = i + 1;
    }
    proof {
        if edit_keys(edit_views(es@)).contains(edit_key(e@)) {
            let j = choose|j: int| 0 <= j < es@.len() && edit_keys(edit_views(es@))[j] == edit_key(e@);
            assert(edit_key(es@[j]@) == edit_key(e@));
        }
    }
    false
}

/// The group of the manifest `path` in a plan.
fn find_manifest(plan: &Vec<(String, Vec<ManifestEdit>)>, path: &str) -> (r: Option<usize>)
    ensures
        match r {
            Some(g) => g < plan@.len() && plan_manifests(plan@)[g as int] == path@,
            None => !plan_manifests(plan@).contains(path@),
        },
{
    let mut g: usize = 0;
    while g < plan.len()
        invariant
            g <= plan@.len(),
            forall|j: int| 0 <= j < g ==> plan@[j].0@ != path@,
        decreases plan@.len() - g,
    {
        if str_eq(plan[g].0.as_str(), path) {
            return Some(g);
        }
        g = g + 1;
    }
    proof {
        if plan_manifests(plan@).contains(path@) {
            let j = choose|j: int| 0 <= j < plan@.len() && plan_manifests(plan@)[j] == path@;
            assert(plan@[j].0@ == path@);
        }
    }
    None
}

/// The edits that the chosen updates make, grouped by manifest in the order
/// the manifests are first met. An update rewrites every usage of its
/// package that has the chosen usage's unit and requirement (a package may
/// stand in several tables of one manifest); a usage of no manifest is
/// skipped, and each manifest gets each edit once.
pub fn plan_manifest_edits(items: &Vec<(&Usage, &Package, SemReq)>) -> (r: Vec<(String, Vec<ManifestEdit>)>)
    ensures
        plan_manifests(r@) == edited_manifests(candidate_edits(items@, items@.len() as int, 0)),
        forall|g: int|
            0 <= g < r@.len() ==> edit_views((#[trigger] r@[g]).1@) == manifest_edits_of(
                candidate_edits(items@, items@.len() as int, 0),
                r@[g].0@,
            ),
{
    let ghost its = items@;
    let mut plan: Vec<(String, Vec<ManifestEdit>)> = Vec::new();
    let mut i: usize = 0;
    while i < items.len()
        invariant
            i <= its.len(),
            its == items@,
            plan_manifests(plan@) == edited_manifests(candidate_edits(its, i as int, 0)),
            forall|g: int|
                0 <= g < plan@.len() ==> edit_views((#[trigger] plan@[g]).1@) == manifest_edits_of(
                    candidate_edits(its, i as int, 0),
                    plan@[g].0@,
                ),
        decreases its.len() - i,
    {
        let item = &items[i];
        let usage = item.0;
        let package = item.1;
        let mut k: usize = 0;
        while k < package.usages.len()
            invariant
                i < its.len(),
                its == items@,
                *item == its[i as int],
                usage == item.0,
                package == item.1,
                k <= package.usages@.len(),
                plan_manifests(plan@) == edited_manifests(candidate_edits(its, i as int, k as int)),
                forall|g: int|
                    0 <= g < plan@.len() ==> edit_views((#[trigger] plan@[g]).1@) == manifest_edits_of(
                        candidate_edits(its, i as int, k as int),
                        plan@[g].0@,
                    ),
            decreases package.usages@.len() - k,
        {
            let ghost cands = candidate_edits(its, i as int, k as int);
            let u = &package.usages[k];
            if u.unit.same_as(&usage.unit) && u.req.same_as(&usage.req) {
                match u.unit.path() {
                    Some(path) => {
                        let toml_key = match &u.rename {
                            Some(r) => r.clone(),
                            None => package.purl.name().to_owned(),
                        };
                        let edit = ManifestEdit {
                            section: section_vec(&u.unit, u.kind),
                            toml_key,
                            new_req: item.2.copy(),
                            old_req: u.req.copy(),
                            preserve_bare: true,
                        };
                        let ghost x = edit_of(its[i as int], k as int);
                        assert(x == (path@, edit@));
                        proof {
                            lemma_candidates_push(cands, x);
                            lemma_manifests_distinct(cands);
                        }
                        let ghost before = plan@;
                        match find_manifest(&plan, path) {
                            Some(g) => {
                                if !has_same_edit(&plan[g].1, &edit) {
                                    let mut es: Vec<ManifestEdit> = Vec::new();
                                    std::mem::swap(&mut es, &mut plan[g].1);
                                    let ghost old_es = es@;
                                    es.push(edit);
                                    plan[g].1 = es;
                                    proof {
                                        assert(edit_views(plan@[g as int].1@) =~= edit_views(old_es).push(x.1));
                                    }
                                }
                                proof {
                                    assert(plan_manifests(plan@) =~= plan_manifests(before));
                                    assert(plan_manifests(before)[g as int] == before[g as int].0@);
                                    assert(edited_manifests(cands).contains(path@));
                                    assert forall|h: int| 0 <= h < plan@.len() implies edit_views((#[trigger] plan@[h]).1@)
                                        == manifest_edits_of(cands.push(x), plan@[h].0@) by {
                                        assert(plan_manifests(before)[h] == before[h].0@);
                                        if h != g {
                                            assert(plan@[h] == before[h]);
                                        }
                                    }
                                }
                            },
                            None => {
                                proof {
                                    lemma_unmet_no_edits(cands, path@);
                                }
                                let mut es: Vec<ManifestEdit> = Vec::new();
                                es.push(edit);
                                plan.push((path.to_owned(), es));
                                proof {
                                    assert(plan_manifests(plan@) =~= plan_manifests(before).push(path@));
                                    assert(edit_views(plan@[before.len() as int].1@) =~= seq![x.1]);
                                    assert(edit_keys(Seq::<EditView>::empty()) =~= Seq::empty());
                                    assert forall|h: int| 0 <= h < plan@.len() implies edit_views((#[trigger] plan@[h]).1@)
                                        == manifest_edits_of(cands.push(x), plan@[h].0@) by {
                                        if h < before.len() {
                                            assert(plan@[h] == before[h]);
                                            assert(plan_manifests(before)[h] == before[h].0@);
                                        }
                                    }
                                }
                            },
                        }
                    },
                    None => {},
                }
            }
            proof {
                assert(candidate_edits(its, i as int, k + 1) == if usage_rewritten(its[i as int], k as int) {
                    cands.push(edit_of(its[i as int], k as int))
                } else {
                    cands
                });
            }
            k = k + 1;
        }
        proof {
            assert(candidate_edits(its, i + 1, 0) == candidate_edits(its, i as int, its[i as int].1.usages@.len() as int));
        }
        i = i + 1;
    }
    plan
}

/// No manifest gets the same edit twice: the edits of each manifest differ
/// in section, key or requirement texts.
pub proof fn law_manifest_edits_distinct(cands: Seq<(Seq<char>, EditView)>, path: Seq<char>)
    ensures
        edit_keys(manifest_edits_of(cands, path)).no_duplicates(),
    decreases cands.len(),
{
    if cands.len() > 0 {
        law_manifest_edits_distinct(cands.drop_last(), path);
        let prev = manifest_edits_of(cands.drop_last(), path);
        let (p, e) = cands.last();
        if p == path && !edit_keys(prev).contains(edit_key(e)) {
            let ks = edit_keys(prev.push(e));
            assert(ks =~= edit_keys(prev).push(edit_key(e)));
            assert forall|i: int, j: int| 0 <= i < j < ks.len() implies ks[i] != ks[j] by {
                if j == prev.len() {
                    assert(edit_keys(prev)[i] == ks[i]);
                }
            }
        }
    }
}

} // verus!
