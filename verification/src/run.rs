//! The decisions of a run of the checker: what it does with the updates it
//! found, which `--package` filter names nothing, which updates it applies,
//! what it reports and how it exits.

use vstd::prelude::*;
use crate::text::{nat_text, push_decimal, string_of};
use crate::semver_model::{SemReq, ComparatorView};
use crate::package::{Package, Packages, Unit, Usage};
use crate::update::{filter_selects, unit_matches_filter, Update};

verus! {

/// What a run does with the updates it found.
#[derive(Debug, Clone, Copy, PartialEq, Eq, Structural)]
pub enum RunMode {
    /// Let the user pick the updates to apply.
    Interactive,
    /// Apply every update.
    Apply,
    /// Only show the updates.
    Report,
}

/// Interactive mode wins; `--update` or `--upgrade` applies everything;
/// otherwise the updates are only shown.
pub fn run_mode(interactive: bool, update: bool, upgrade: bool) -> (r: RunMode)
    ensures
        r == if interactive {
            RunMode::Interactive
        } else if update || upgrade {
            RunMode::Apply
        } else {
            RunMode::Report
        },
{
    if interactive {
        RunMode::Interactive
    } else if update || upgrade {
        RunMode::Apply
    } else {
        RunMode::Report
    }
}

/// The first `--package` filter that selects no unit, if any.
pub fn missing_filter(packages: &Packages, filters: &[String]) -> (r: Option<usize>)
    ensures
        match r {
            Some(i) => i < filters@.len() && (forall|k: int|
                0 <= k < packages.units@.len() ==> filter_selects(
                    #[trigger] packages.units@[k].0@,
                    filters@[i as int]@,
                    false,
                )) && (forall|j: int| 0 <= j < i ==> filter_finds(*packages, #[trigger] filters@[j]@)),
            None => forall|j: int| 0 <= j < filters@.len() ==> filter_finds(*packages, #[trigger] filters@[j]@),
        },
{
    let mut i: usize = 0;
    while i < filters.len()
        invariant
            i <= filters@.len(),
            forall|j: int| 0 <= j < i ==> filter_finds(*packages, #[trigger] filters@[j]@),
        decreases filters@.len() - i,
    {
        let mut found = false;
        let mut k: usize = 0;
        while k < packages.units.len() && !found
            invariant
                k <= packages.units@.len(),
                i < filters@.len(),
                !found ==> forall|x: int|
                    0 <= x < k ==> filter_selects(#[trigger] packages.units@[x].0@, filters@[i as int]@, false),
                found ==> filter_finds(*packages, filters@[i as int]@),
            decreases packages.units@.len() - k + if found { 0int } else { 1int },
        {
            if unit_matches_filter(&packages.units[k].0, filters[i].as_str()) {
                found = true;
            }
            k = k + 1;
        }
        if !found {
            return Some(i);
        }
        i = i + 1;
    }
    None
}

/// Whether a filter selects some unit.
pub open spec fn filter_finds(p: Packages, f: Seq<char>) -> bool {
    exists|k: int| 0 <= k < p.units@.len() && filter_selects(#[trigger] p.units@[k].0@, f, true)
}

/// `"\n Upgraded <count> dependency."`, or `dependencies` for any count
/// but one.
pub open spec fn upgraded_text(count: nat) -> Seq<char> {
    seq!['\n', ' '] + "Upgraded "@ + nat_text(count) + seq![' '] + (if count == 1 {
        "dependency"@
    } else {
        "dependencies"@
    }) + seq!['.']
}

/// The message after updates were applied.
pub fn upgraded_message(count: usize) -> (r: String)
    ensures
        r@ == upgraded_text(count as nat),
{
    let mut out: Vec<char> = vec!['\n', ' ', 'U', 'p', 'g', 'r', 'a', 'd', 'e', 'd', ' '];
    push_decimal(count as u64, &mut out);
    out.push(' ');
    let word: Vec<char> = if count == 1 {
        vec!['d', 'e', 'p', 'e', 'n', 'd', 'e', 'n', 'c', 'y']
    } else {
        vec!['d', 'e', 'p', 'e', 'n', 'd', 'e', 'n', 'c', 'i', 'e', 's']
    };
    let mut k: usize = 0;
    let ghost base = out@;
    while k < word.len()
        invariant
            k <= word@.len(),
            out@ == base + word@.take(k as int),
        decreases word@.len() - k,
    {
        out.push(word[k]);
        proof {
            assert(out@ =~= base + word@.take(k + 1));
        }
        k = k + 1;
    }
    out.push('.');
    proof {
        reveal_strlit("Upgraded ");
        reveal_strlit("dependency");
        reveal_strlit("dependencies");
        assert(word@.take(word@.len() as int) =~= word@);
        assert(out@ =~= upgraded_text(count as nat));
    }
    string_of(out.as_slice())
}

/// The status a run exits with where it would otherwise succeed: 2 when
/// updates are found and `--fail-on-updates` asks to fail on them.
pub open spec fn exit_status_spec(fail_on_updates: bool, has_updates: bool) -> Option<i32> {
    if fail_on_updates && has_updates {
        Some(2i32)
    } else {
        None
    }
}

/// The status a run exits with where it would otherwise succeed: 2 when
/// updates are found and `--fail-on-updates` asks to fail on them.
pub fn exit_status(fail_on_updates: bool, has_updates: bool) -> (r: Option<i32>)
    ensures
        r == exit_status_spec(fail_on_updates, has_updates),
{
    if fail_on_updates && has_updates {
        Some(2)
    } else {
        None
    }
}

/// The updates of all units, one after the other.
pub open spec fn flat_updates<'a>(updates: Seq<(&'a Unit, Vec<Update<'a>>)>) -> Seq<Update<'a>>
    decreases updates.len(),
{
    if updates.len() == 0 {
        seq![]
    } else {
        flat_updates(updates.drop_last()) + updates.last().1@
    }
}

/// What applying an update needs: the usage, the package and the new
/// requirement.
pub open spec fn item_of<'a>(u: Update<'a>) -> (&'a Usage, &'a Package, Seq<ComparatorView>) {
    (u.usage, u.package, u.new_req@)
}

/// What applying each of some updates needs.
pub open spec fn update_items<'a>(us: Seq<Update<'a>>) -> Seq<(&'a Usage, &'a Package, Seq<ComparatorView>)> {
    us.map_values(|u: Update<'a>| item_of(u))
}

pub open spec fn item_views<'a>(items: Seq<(&'a Usage, &'a Package, SemReq)>) -> Seq<(&'a Usage, &'a Package, Seq<ComparatorView>)> {
    items.map_values(|x: (&'a Usage, &'a Package, SemReq)| (x.0, x.1, x.2@))
}

/// The updates of all units as what applying them needs, in order.
pub fn all_update_items<'a>(updates: &Vec<(&'a Unit, Vec<Update<'a>>)>) -> (r: Vec<(&'a Usage, &'a Package, SemReq)>)
    ensures
        item_views(r@) == update_items(flat_updates(updates@)),
        r@.len() == flat_updates(updates@).len(),
{
    let mut r: Vec<(&'a Usage, &'a Package, SemReq)> = Vec::new();
    let mut g: usize = 0;
    while g < updates.len()
        invariant
            g <= updates@.len(),
            item_views(r@) == update_items(flat_updates(updates@.take(g as int))),
        decreases updates@.len() - g,
    {
        let group = &updates[g].1;
        let ghost base = r@;
        let mut k: usize = 0;
        while k < group.len()
            invariant
                g < updates@.len(),
                *group == updates@[g as int].1,
                k <= group@.len(),
                item_views(r@) == item_views(base) + update_items(group@.take(k as int)),
            decreases group@.len() - k,
        {
            let u = &group[k];
            let ghost before = r@;
            let q = u.new_req.copy();
            r.push((u.usage, u.package, q));
            proof {
                assert(r@ == before.push((u.usage, u.package, q)));
                assert(*u == group@[k as int]);
                assert(item_views(r@) =~= item_views(before).push(item_of(group@[k as int])));
                assert(group@.take(k + 1) =~= group@.take(k as int).push(group@[k as int]));
                assert(update_items(group@.take(k + 1)) =~= update_items(group@.take(k as int)).push(item_of(group@[k as int])));
                assert(item_views(r@) =~= item_views(base) + update_items(group@.take(k + 1)));
            }
            k = k + 1;
        }
        proof {
            assert(updates@.take(g + 1).drop_last() =~= updates@.take(g as int));
            assert(group@.take(group@.len() as int) =~= group@);
            assert(update_items(flat_updates(updates@.take(g + 1))) =~= update_items(flat_updates(
                updates@.take(g as int),
            )) + update_items(group@));
        }
        g = g + 1;
    }
    proof {
        assert(updates@.take(updates@.len() as int) =~= updates@);
    }
    r
}

/// The updates at the given places among all units' updates, in the order
/// given.
pub fn update_items_at<'a>(updates: &Vec<(&'a Unit, Vec<Update<'a>>)>, places: &Vec<usize>) -> (r: Vec<(&'a Usage, &'a Package, SemReq)>)
    requires
        forall|j: int| 0 <= j < places@.len() ==> #[trigger] places@[j] < flat_updates(updates@).len(),
    ensures
        r@.len() == places@.len(),
        forall|j: int|
            0 <= j < places@.len() ==> #[trigger] item_views(r@)[j] == item_of(flat_updates(updates@)[places@[j] as int]),
{
    let all = all_update_items(updates);
    let ghost flat = flat_updates(updates@);
    assert(all@.len() == flat.len()) by {
        assert(item_views(all@).len() == update_items(flat).len());
    }
    let mut r: Vec<(&'a Usage, &'a Package, SemReq)> = Vec::new();
    let mut j: usize = 0;
    while j < places.len()
        invariant
            j <= places@.len(),
            all@.len() == flat.len(),
            flat == flat_updates(updates@),
            item_views(all@) == update_items(flat),
            forall|x: int| 0 <= x < places@.len() ==> #[trigger] places@[x] < flat.len(),
            r@.len() == j,
            forall|x: int| 0 <= x < j ==> #[trigger] item_views(r@)[x] == item_of(flat[places@[x] as int]),
        decreases places@.len() - j,
    {
        let p = places[j];
        let x = &all[p];
        let ghost before = r@;
        let q = x.2.copy();
        r.push((x.0, x.1, q));
        proof {
            assert(item_views(all@)[p as int] == item_of(flat[p as int]));
            assert(item_views(r@) =~= item_views(before).push(item_views(all@)[p as int]));
            assert forall|y: int| 0 <= y < j + 1 implies #[trigger] item_views(r@)[y] == item_of(flat[places@[y] as int]) by {
                if y < j {
                    assert(item_views(r@)[y] == item_views(before)[y]);
                }
            }
        }
        j = j + 1;
    }
    r
}


/// A step of a run after the updates are known.
#[derive(Debug, Clone, Copy, PartialEq, Eq, Structural)]
pub enum RunStep {
    /// Print the table of updates.
    Summary,
    /// Let the user pick the updates to apply; what follows depends on the
    /// pick.
    Prompt,
    /// Apply the updates the user picked.
    ApplyPicked,
    /// Apply every update.
    ApplyAll,
    /// Run `cargo update`.
    CargoUpdate,
    /// Say that nothing was picked.
    NothingPicked,
    /// Say how many dependencies were upgraded.
    Upgraded,
    /// Suggest `-u` or `-U`.
    Hint,
    /// Exit with the status that `exit_status` gives, if any.
    ExitStatus,
}

/// `CargoUpdate` where `--upgrade` asks for it, nothing otherwise.
pub open spec fn cargo_update_if(upgrade: bool) -> Seq<RunStep> {
    if upgrade {
        seq![RunStep::CargoUpdate]
    } else {
        seq![]
    }
}

/// The steps of a run once the updates are known. Interactive: with no
/// update, the (empty) table and `cargo update` where asked; else the
/// picker. Applying: the table; with no update, `cargo update` where asked;
/// else the edits, `cargo update` where asked, the count, and the exit
/// status. Reporting: the table, the hint where there are updates, and the
/// exit status. `--upgrade` runs `cargo update` whether or not anything
/// changed.
pub open spec fn steps_after_updates(mode: RunMode, has_updates: bool, upgrade: bool) -> Seq<RunStep> {
    match mode {
        RunMode::Interactive => if has_updates {
            seq![RunStep::Prompt]
        } else {
            seq![RunStep::Summary] + cargo_update_if(upgrade)
        },
        RunMode::Apply => if has_updates {
            seq![RunStep::Summary, RunStep::ApplyAll] + cargo_update_if(upgrade) + seq![RunStep::Upgraded, RunStep::ExitStatus]
        } else {
            seq![RunStep::Summary] + cargo_update_if(upgrade)
        },
        RunMode::Report => if has_updates {
            seq![RunStep::Summary, RunStep::Hint, RunStep::ExitStatus]
        } else {
            seq![RunStep::Summary, RunStep::ExitStatus]
        },
    }
}

/// The steps after the picker: with nothing picked, `cargo update` where
/// asked, a note and the exit status; else the edits, `cargo update` where
/// asked, the count, and the exit status.
pub open spec fn steps_after_pick(picked: nat, upgrade: bool) -> Seq<RunStep> {
    if picked == 0 {
        cargo_update_if(upgrade) + seq![RunStep::NothingPicked, RunStep::ExitStatus]
    } else {
        seq![RunStep::ApplyPicked] + cargo_update_if(upgrade) + seq![RunStep::Upgraded, RunStep::ExitStatus]
    }
}

fn push_cargo_update(steps: &mut Vec<RunStep>, upgrade: bool)
    ensures
        final(steps)@ == old(steps)@ + cargo_update_if(upgrade),
{
    if upgrade {
        steps.push(RunStep::CargoUpdate);
    }
    proof {
        assert(final(steps)@ =~= old(steps)@ + cargo_update_if(upgrade));
    }
}

/// The steps of a run once the updates are known.
pub fn run_steps(mode: RunMode, has_updates: bool, upgrade: bool) -> (r: Vec<RunStep>)
    ensures
        r@ == steps_after_updates(mode, has_updates, upgrade),
{
    let mut steps: Vec<RunStep> = Vec::new();
    match mode {
        RunMode::Interactive => {
            if has_updates {
                steps.push(RunStep::Prompt);
            } else {
                steps.push(RunStep::Summary);
                push_cargo_update(&mut steps, upgrade);
            }
        },
        RunMode::Apply => {
            steps.push(RunStep::Summary);
            if has_updates {
                steps.push(RunStep::ApplyAll);
                push_cargo_update(&mut steps, upgrade);
                steps.push(RunStep::Upgraded);
                steps.push(RunStep::ExitStatus);
            } else {
                push_cargo_update(&mut steps, upgrade);
            }
        },
        RunMode::Report => {
            steps.push(RunStep::Summary);
            if has_updates {
                steps.push(RunStep::Hint);
            }
            steps.push(RunStep::ExitStatus);
        },
    }
    assert(steps@ =~= steps_after_updates(mode, has_updates, upgrade));
    steps
}

/// The steps after the picker closed with `picked` updates chosen.
pub fn pick_steps(picked: usize, upgrade: bool) -> (r: Vec<RunStep>)
    ensures
        r@ == steps_after_pick(picked as nat, upgrade),
{
    let mut steps: Vec<RunStep> = Vec::new();
    if picked == 0 {
        push_cargo_update(&mut steps, upgrade);
        steps.push(RunStep::NothingPicked);
        steps.push(RunStep::ExitStatus);
    } else {
        steps.push(RunStep::ApplyPicked);
        push_cargo_update(&mut steps, upgrade);
        steps.push(RunStep::Upgraded);
        steps.push(RunStep::ExitStatus);
    }
    assert(steps@ =~= steps_after_pick(picked as nat, upgrade));
    steps
}


/// The steps of a whole run once the updates are known, where the picker,
/// if it is shown, closes with `picked` updates chosen.
pub open spec fn run_plan(mode: RunMode, has_updates: bool, upgrade: bool, picked: nat) -> Seq<RunStep> {
    let first = steps_after_updates(mode, has_updates, upgrade);
    if first == seq![RunStep::Prompt] {
        first + steps_after_pick(picked, upgrade)
    } else {
        first
    }
}

/// Where updates were found, every run reaches the exit status, which with
/// `--fail-on-updates` is 2: whatever the mode, `--upgrade`, and how many
/// updates the picker closes with.
pub proof fn law_exit_status_when_updates(mode: RunMode, upgrade: bool, picked: nat)
    ensures
        run_plan(mode, true, upgrade, picked).contains(RunStep::ExitStatus),
        exit_status_spec(true, true) == Some(2i32),
{
    let plan = run_plan(mode, true, upgrade, picked);
    assert(plan.last() == RunStep::ExitStatus);
    assert(plan[plan.len() - 1] == RunStep::ExitStatus);
}

} // verus!
