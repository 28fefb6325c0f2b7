//! Choosing target versions and rewriting version requirements.

use vstd::prelude::*;
use crate::text::{ascii, chars_of, dots, first_digit, find_first_digit, is_digit, nat_text, string_of, slice_chars, extend_chars, push_decimal, dot_positions, parse_u64, parse_u64_chars, lemma_dots_ordered};
use crate::semver_model::{SemReq, SemVersion, VersionView, ComparatorView, semver_matches, semver_order, semver_parse_version, semver_parse_req, req_text, version_text};
use crate::package::PackageVersion;

verus! {

/// Which published versions may be chosen as targets.
#[derive(Debug, Clone, Copy, PartialEq, Eq)]
pub struct VersionStrategy {
    /// Only versions that the current requirement already accepts.
    pub compatible: bool,
    /// Also pre-release versions.
    pub pre: bool,
}

impl VersionStrategy {
    /// The strategy that the `--compatible` and `--pre` flags ask for.
    pub fn from_args(compatible: bool, pre: bool) -> (r: VersionStrategy)
        ensures
            r.compatible == compatible,
            r.pre == pre,
    {
        VersionStrategy { compatible, pre }
    }
}

/// How far an update moves.
#[derive(Debug, Clone, Copy, PartialEq, Eq, Structural)]
pub enum VersionBump {
    Major,
    Minor,
    Patch,
}

/// The bump from one version to another. Leaving a pre-release is breaking,
/// and below 1.0 a change of minor is breaking too.
pub open spec fn bump_between(from: VersionView, to: VersionView) -> VersionBump {
    if from.pre.len() != 0 && from != to {
        VersionBump::Major
    } else if from.major != to.major {
        VersionBump::Major
    } else if from.major == 0 {
        if from.minor != to.minor {
            VersionBump::Major
        } else {
            VersionBump::Patch
        }
    } else if from.minor != to.minor {
        VersionBump::Minor
    } else {
        VersionBump::Patch
    }
}

/// Treats 0.0.x as patch instead of major, since 0.y.z versions often follow
/// a different stability scheme.
pub fn version_bump(from: &SemVersion, to: &SemVersion) -> (r: VersionBump)
    ensures
        r == bump_between(from@, to@),
{
    if !from.pre().is_empty() && !from.same_as(to) {
        return VersionBump::Major;
    }
    if from.major() != to.major() {
        return VersionBump::Major;
    }
    if from.major() == 0 {
        if from.minor() != to.minor() {
            VersionBump::Major
        } else {
            VersionBump::Patch
        }
    } else if from.minor() != to.minor() {
        VersionBump::Minor
    } else {
        VersionBump::Patch
    }
}

/// Whether two versions share major, minor and patch.
pub open spec fn same_base_spec(a: VersionView, b: VersionView) -> bool {
    a.major == b.major && a.minor == b.minor && a.patch == b.patch
}

fn same_base(a: &SemVersion, b: &SemVersion) -> (r: bool)
    ensures
        r == same_base_spec(a@, b@),
{
    a.major() == b.major() && a.minor() == b.minor() && a.patch() == b.patch()
}

/// Whether a published version may be a target: not yanked; a release, or
/// pre-releases allowed, or the current version is a pre-release of the same
/// base; and accepted by the requirement when only compatible updates count.
pub open spec fn eligible(
    pv: PackageVersion,
    req: Seq<ComparatorView>,
    strategy: VersionStrategy,
    current: Option<VersionView>,
) -> bool {
    &&& !pv.yanked
    &&& (strategy.pre || pv.version@.pre.len() == 0 || (current matches Some(c) && c.pre.len()
        != 0 && same_base_spec(pv.version@, c)))
    &&& (!strategy.compatible || semver_matches(req, pv.version@))
}

/// The view of an optional borrowed version.
pub open spec fn opt_view(v: Option<&SemVersion>) -> Option<VersionView> {
    match v {
        Some(x) => Some(x@),
        None => None,
    }
}

/// The index that a left-to-right scan for the greatest eligible version
/// ends on: an eligible version replaces the best so far when it is not
/// below it.
pub open spec fn pick_latest(
    vs: Seq<PackageVersion>,
    req: Seq<ComparatorView>,
    strategy: VersionStrategy,
    current: Option<VersionView>,
) -> Option<int>
    decreases vs.len(),
{
    if vs.len() == 0 {
        None
    } else {
        let prev = pick_latest(vs.drop_last(), req, strategy, current);
        if eligible(vs.last(), req, strategy, current) {
            match prev {
                None => Some(vs.len() - 1),
                Some(b) => if semver_order(vs.last().version@, vs[b].version@) >= 0 {
                    Some(vs.len() - 1)
                } else {
                    Some(b)
                },
            }
        } else {
            prev
        }
    }
}

/// Pick the best target version from published versions, filtered by
/// strategy: the greatest eligible version, or none when no version is
/// eligible.
pub fn resolve_version(
    versions: &[PackageVersion],
    req: &SemReq,
    strategy: &VersionStrategy,
    current: Option<&SemVersion>,
) -> (r: Option<SemVersion>)
    ensures
        r is None <==> forall|i: int|
            0 <= i < versions@.len() ==> !eligible(
                #[trigger] versions@[i],
                req@,
                *strategy,
                opt_view(current),
            ),
        r matches Some(best) ==> exists|i: int|
            0 <= i < versions@.len() && eligible(
                #[trigger] versions@[i],
                req@,
                *strategy,
                opt_view(current),
            ) && versions@[i].version@ == best@,
        r matches Some(best) ==> forall|i: int|
            0 <= i < versions@.len() && eligible(
                #[trigger] versions@[i],
                req@,
                *strategy,
                opt_view(current),
            ) ==> versions@[i].version@ == best@ || semver_order(versions@[i].version@, best@) < 0,
        r is None <==> pick_latest(versions@, req@, *strategy, opt_view(current)) is None,
        r matches Some(best) ==> best@ == versions@[pick_latest(versions@, req@, *strategy, opt_view(current))->0].version@,
        r matches Some(best) ==> exists|i: int|
            0 <= i < versions@.len() && !(#[trigger] versions@[i]).yanked && versions@[i].version@ == best@,
{
    let mut best: Option<usize> = None;
    let mut i: usize = 0;
    while i < versions.len()
        invariant
            i <= versions@.len(),
            pick_latest(versions@.take(i as int), req@, *strategy, opt_view(current)) == (match best {
                Some(b) => Some(b as int),
                None => None::<int>,
            }),
            best is None <==> forall|j: int|
                0 <= j < i ==> !eligible(
                    #[trigger] versions@[j],
                    req@,
                    *strategy,
                    opt_view(current),
                ),
            best matches Some(b) ==> b < i && eligible(
                versions@[b as int],
                req@,
                *strategy,
                opt_view(current),
            ),
            best matches Some(b) ==> forall|j: int|
                0 <= j < i && j != b && eligible(
                    #[trigger] versions@[j],
                    req@,
                    *strategy,
                    opt_view(current),
                ) ==> versions@[j].version@ == versions@[b as int].version@ || semver_order(
                    versions@[j].version@,
                    versions@[b as int].version@,
                ) < 0,
        decreases versions@.len() - i,
    {
        let pv = &versions[i];
        assert(versions@.take(i + 1).drop_last() =~= versions@.take(i as int));
        assert(versions@.take(i + 1).last() == versions@[i as int]);
        let ok_pre = if strategy.pre {
            true
        } else if pv.version.pre().is_empty() {
            true
        } else {
            match current {
                Some(c) => !c.pre().is_empty() && same_base(&pv.version, c),
                None => false,
            }
        };
        let ok = !pv.yanked && ok_pre && (!strategy.compatible || req.matches(&pv.version));
        assert(ok == eligible(versions@[i as int], req@, *strategy, opt_view(current)));
        if ok {
            match best {
                None => {
                    best = Some(i);
                },
                Some(b) => {
                    // `max` keeps the last of equal elements; equal versions
                    // are identical, so replacing on `>=` gives the same value.
                    let o = pv.version.order(&versions[b].version);
                    if o >= 0 {
                        proof {
                            assert forall|j: int|
                                0 <= j < i + 1 && j != i && eligible(
                                    #[trigger] versions@[j],
                                    req@,
                                    *strategy,
                                    opt_view(current),
                                ) implies versions@[j].version@ == versions@[i as int].version@
                                || semver_order(versions@[j].version@, versions@[i as int].version@)
                                < 0 by {
                                if o == 0 {
                                    assert(versions@[i as int].version@ == versions@[b as int].version@);
                                } else if j != b {
                                    if versions@[j].version@ == versions@[b as int].version@ {
                                    } else {
                                        assert(semver_order(versions@[j].version@, versions@[b as int].version@) <= 0);
                                    }
                                }
                            }
                        }
                        best = Some(i);
                    }
                },
            }
        }
        proof {
            match best {
                Some(b) => {
                    assert(versions@.take(i + 1)[b as int] == versions@[b as int]);
                },
                None => {},
            }
        }
        i = i + 1;
    }
    assert(versions@.take(versions@.len() as int) =~= versions@);
    match best {
        Some(b) => Some(versions[b].version.copy()),
        None => None,
    }
}

/// The text left once leading non-digit characters are dropped.
pub open spec fn after_leading_non_digits(s: Seq<char>) -> Seq<char> {
    match first_digit(s) {
        Some(i) => s.skip(i),
        None => seq![],
    }
}

/// The base version of a requirement: its text without the leading
/// operator characters, parsed as a version.
pub open spec fn current_version_spec(req: Seq<ComparatorView>) -> Option<VersionView> {
    semver_parse_version(after_leading_non_digits(req_text(req)))
}

/// Extract the base version from a requirement (e.g. `^1.2.3` -> `1.2.3`).
pub fn current_version(req: &SemReq) -> (r: Option<SemVersion>)
    ensures
        r is Some <==> current_version_spec(req@) is Some,
        r matches Some(v) ==> current_version_spec(req@) == Some(v@),
{
    let s = req.to_string();
    let cs = chars_of(s.as_str());
    let start = match find_first_digit(&cs) {
        Some(i) => i,
        None => cs.len(),
    };
    let rest = slice_chars(&cs, start, cs.len());
    let rest_s = string_of(rest.as_slice());
    proof {
        assert(rest_s@ =~= after_leading_non_digits(req_text(req@)));
    }
    match SemVersion::parse(rest_s.as_str()) {
        Ok(v) => Some(v),
        Err(_) => None,
    }
}

/// Whether the first published version equal to `current` is yanked; false
/// when there is no current version or no such published version.
pub open spec fn yanked_spec(versions: Seq<PackageVersion>, current: Option<VersionView>) -> bool {
    match current {
        None => false,
        Some(c) => exists|i: int|
            0 <= i < versions.len() && (#[trigger] versions[i]).version@ == c && versions[i].yanked
                && forall|j: int| 0 <= j < i ==> (#[trigger] versions[j]).version@ != c,
    }
}

pub fn is_version_yanked(versions: &[PackageVersion], current: Option<&SemVersion>) -> (r: bool)
    ensures
        r == yanked_spec(versions@, opt_view(current)),
{
    if current.is_none() {
        return false;
    }
    let c = current.unwrap();
    assert(current == Some(c));
    let mut i: usize = 0;
    while i < versions.len()
        invariant
            i <= versions@.len(),
            current == Some(c),
            forall|j: int| 0 <= j < i ==> (#[trigger] versions@[j]).version@ != c@,
        decreases versions@.len() - i,
    {
        if versions[i].version.same_as(c) {
            proof {
                assert(opt_view(current) == Some(c@));
                assert(versions@[i as int].version@ == c@);
                if versions@[i as int].yanked {
                    assert(forall|j: int| 0 <= j < i ==> (#[trigger] versions@[j]).version@ != c@);
                    assert(yanked_spec(versions@, opt_view(current)));
                }
                if yanked_spec(versions@, opt_view(current)) {
                    let k = choose|k: int|
                        0 <= k < versions@.len() && (#[trigger] versions@[k]).version@ == c@
                            && versions@[k].yanked && forall|j: int|
                            0 <= j < k ==> (#[trigger] versions@[j]).version@ != c@;
                    if k < i {
                    } else if k > i {
                        assert(versions@[i as int].version@ == c@);
                    }
                }
                assert(versions@[i as int].version@ == c@);
            }
            return versions[i].yanked;
        }
        i = i + 1;
    }
    false
}


/// Where the version part of a requirement's text starts: at the first
/// digit, or at 0 when there is none.
pub open spec fn digit_start(s: Seq<char>) -> int {
    match first_digit(s) {
        Some(i) => i,
        None => 0,
    }
}

/// The version part that replaces the old one: the whole new version when it
/// is a pre-release, else as many components as the old requirement wrote.
pub open spec fn new_version_part(t: Seq<char>, new: VersionView) -> Seq<char> {
    let count = dots(t.skip(digit_start(t))).len() + 1;
    if new.pre.len() != 0 {
        version_text(new)
    } else if count == 1 {
        nat_text(new.major as nat)
    } else if count == 2 {
        nat_text(new.major as nat) + seq!['.'] + nat_text(new.minor as nat)
    } else {
        nat_text(new.major as nat) + seq!['.'] + nat_text(new.minor as nat) + seq!['.'] + nat_text(
            new.patch as nat,
        )
    }
}

/// The text of the rewritten requirement: the old operator prefix, then the
/// new version part.
pub open spec fn new_req_text(old: Seq<ComparatorView>, new: VersionView) -> Seq<char> {
    let t = req_text(old);
    t.take(digit_start(t)) + new_version_part(t, new)
}

/// Whether a requirement can be rewritten for a version: it has more or
/// fewer than one comparator (and is kept), or the rewritten text parses.
pub open spec fn rewritable(old: Seq<ComparatorView>, new: VersionView) -> bool {
    old.len() != 1 || semver_parse_req(new_req_text(old, new)) is Some
}

/// The rewritten requirement: unchanged unless it has exactly one
/// comparator, else the parse of the rewritten text.
pub open spec fn new_req_spec(old: Seq<ComparatorView>, new: VersionView) -> Seq<ComparatorView> {
    if old.len() != 1 {
        old
    } else {
        semver_parse_req(new_req_text(old, new)).unwrap()
    }
}

/// The rewritten requirement's text.
fn new_req_string(old_req: &SemReq, new_version: &SemVersion) -> (r: String)
    ensures
        r@ == new_req_text(old_req@, new_version@),
{
    let t = old_req.to_string();
    let cs = chars_of(t.as_str());
    let digit_pos = match find_first_digit(&cs) {
        Some(i) => i,
        None => 0,
    };
    let mut out = slice_chars(&cs, 0, digit_pos);
    if !new_version.pre().is_empty() {
        let v = new_version.to_string();
        let vs = chars_of(v.as_str());
        extend_chars(&mut out, &vs);
    } else {
        let part = slice_chars(&cs, digit_pos, cs.len());
        let ds = dot_positions(&part);
        proof {
            assert(part@ =~= cs@.skip(digit_start(cs@)));
        }
        push_decimal(new_version.major(), &mut out);
        if ds.len() >= 1 {
            out.push('.');
            push_decimal(new_version.minor(), &mut out);
            if ds.len() >= 2 {
                out.push('.');
                push_decimal(new_version.patch(), &mut out);
            }
        }
    }
    let r = string_of(out.as_slice());
    assert(r@ =~= new_req_text(old_req@, new_version@));
    r
}

/// Build a new requirement preserving the operator prefix and version shape.
/// A requirement of several comparators is returned unchanged.
pub fn build_new_req(old_req: &SemReq, new_version: &SemVersion) -> (r: SemReq)
    requires
        rewritable(old_req@, new_version@),
    ensures
        r@ == new_req_spec(old_req@, new_version@),
{
    match try_build_new_req(old_req, new_version) {
        Some(q) => q,
        None => {
            proof {
                assert(false);
            }
            old_req.copy()
        },
    }
}

/// `build_new_req` for any input: `None` where the rewritten text does not
/// parse as a requirement.
pub fn try_build_new_req(old_req: &SemReq, new_version: &SemVersion) -> (r: Option<SemReq>)
    ensures
        r is Some <==> rewritable(old_req@, new_version@),
        r matches Some(q) ==> q@ == new_req_spec(old_req@, new_version@),
{
    if old_req.comparator_count() != 1 {
        return Some(old_req.copy());
    }
    let text = new_req_string(old_req, new_version);
    match SemReq::parse(text.as_str()) {
        Ok(q) => Some(q),
        Err(_) => None,
    }
}

/// The `k`-th `.`-separated segment of a text, if it has that many.
pub open spec fn segment(s: Seq<char>, k: int) -> Option<Seq<char>> {
    let ds = dots(s);
    if k < 0 || k > ds.len() {
        None
    } else {
        let start = if k == 0 { 0 } else { ds[k - 1] + 1 };
        let end = if k < ds.len() { ds[k] } else { s.len() as int };
        Some(s.subrange(start, end))
    }
}

/// The `k`-th component of a version text, read as a number.
pub open spec fn component(s: Seq<char>, k: int) -> Option<u64> {
    match segment(s, k) {
        Some(p) => parse_u64(p),
        None => None,
    }
}

/// Where the highlighted part of the new requirement's text begins, or
/// `None` when major, minor and patch read the same in both texts.
pub open spec fn highlight_point(curr: Seq<char>, new: Seq<char>) -> Option<int> {
    let vs = digit_start(new);
    let nv = new.skip(vs);
    let cv = curr.skip(if vs < curr.len() { vs } else { curr.len() as int });
    let nd = dots(nv);
    if component(cv, 0) != component(nv, 0) {
        Some(vs)
    } else if component(cv, 1) != component(nv, 1) {
        Some(vs + if nd.len() > 0 { nd[0] + 1 } else { 0 })
    } else if component(cv, 2) != component(nv, 2) {
        Some(vs + if nd.len() > 1 { nd[1] + 1 } else { 0 })
    } else {
        None
    }
}

/// The `k`-th component of `cs`, given the positions of its dots.
fn component_of(cs: &Vec<char>, ds: &Vec<usize>, k: usize) -> (r: Option<u64>)
    requires
        ds@.len() == dots(cs@).len(),
        forall|j: int| 0 <= j < ds@.len() ==> ds@[j] as int == #[trigger] dots(cs@)[j],
        k <= 2,
    ensures
        r == component(cs@, k as int),
{
    proof {
        lemma_dots_ordered(cs@);
    }
    if k > ds.len() {
        return None;
    }
    let n = cs.len();
    proof {
        if k > 0 {
            assert(ds@[k - 1] as int == dots(cs@)[k - 1]);
            assert(dots(cs@)[k - 1] < cs@.len());
            assert(ds@[k - 1] < n);
        }
    }
    let start = if k == 0 { 0 } else { ds[k - 1] + 1 };
    let end = if k < ds.len() { ds[k] } else { cs.len() };
    proof {
        if k < ds.len() {
            assert(ds@[k as int] as int == dots(cs@)[k as int]);
            if k > 0 {
                assert(dots(cs@)[k - 1] < dots(cs@)[k as int]);
            }
        }
    }
    parse_u64_chars(cs, start, end)
}

/// Where to start the highlight in `new_req_str`, or `None` when nothing
/// changed in major, minor or patch.
pub fn highlight_start(curr_req_str: &str, new_req_str: &str) -> (r: Option<usize>)
    ensures
        r matches Some(k) ==> highlight_point(curr_req_str@, new_req_str@) == Some(k as int),
        r is None ==> highlight_point(curr_req_str@, new_req_str@) is None,
        r matches Some(k) ==> k <= new_req_str@.len(),
{
    let new_cs = chars_of(new_req_str);
    let curr_cs = chars_of(curr_req_str);
    let vs = match find_first_digit(&new_cs) {
        Some(i) => i,
        None => 0,
    };
    let nv = slice_chars(&new_cs, vs, new_cs.len());
    let cstart = if vs < curr_cs.len() { vs } else { curr_cs.len() };
    let cv = slice_chars(&curr_cs, cstart, curr_cs.len());
    let nd = dot_positions(&nv);
    let cd = dot_positions(&cv);
    proof {
        lemma_dots_ordered(nv@);
        assert(nv@ =~= new_req_str@.skip(vs as int));
        assert(cv@ =~= curr_req_str@.skip(cstart as int));
    }
    if !opt_eq(component_of(&cv, &cd, 0), component_of(&nv, &nd, 0)) {
        Some(vs)
    } else if !opt_eq(component_of(&cv, &cd, 1), component_of(&nv, &nd, 1)) {
        Some(vs + if nd.len() > 0 { nd[0] + 1 } else { 0 })
    } else if !opt_eq(component_of(&cv, &cd, 2), component_of(&nv, &nd, 2)) {
        Some(vs + if nd.len() > 1 { nd[1] + 1 } else { 0 })
    } else {
        None
    }
}

fn opt_eq(a: Option<u64>, b: Option<u64>) -> (r: bool)
    ensures
        r == (a == b),
{
    match (a, b) {
        (Some(x), Some(y)) => x == y,
        (None, None) => true,
        _ => false,
    }
}

#[verifier::external_type_specification]
#[verifier::external_body]
pub struct ExStyle(console::Style);

pub assume_specification[ console::Style::new ]() -> console::Style;

pub assume_specification[ console::Style::red ](style: console::Style) -> console::Style;

pub assume_specification[ console::Style::cyan ](style: console::Style) -> console::Style;

pub assume_specification[ console::Style::green ](style: console::Style) -> console::Style;

/// The terminal style of a bump: major red, minor cyan, patch green.
pub fn bump_style(bump: VersionBump) -> console::Style {
    match bump {
        VersionBump::Major => console::Style::new().red(),
        VersionBump::Minor => console::Style::new().cyan(),
        VersionBump::Patch => console::Style::new().green(),
    }
}

/// `"\u{1b}[0m"`: the code that ends a terminal style.
pub open spec fn style_reset() -> Seq<char> {
    seq!['\u{1b}', '[', '0', 'm']
}

/// A select-graphic-rendition code: `ESC [ params m`.
pub open spec fn sgr(params: Seq<char>) -> Seq<char> {
    seq!['\u{1b}', '['] + params + seq!['m']
}

/// The terminal styles this library writes text in.
#[derive(Debug, Clone, Copy, PartialEq, Eq, Structural)]
pub enum TermStyle {
    Red,
    Green,
    Yellow,
    Cyan,
    White,
    Bold,
    Dim,
    BlueBold,
    CyanBold,
}

/// The codes that start a style, as `console` writes them: the foreground
/// color (`30` plus the color's number), then the attributes in their order
/// (bold `1`, dim `2`).
pub open spec fn style_codes(style: TermStyle) -> Seq<char> {
    match style {
        TermStyle::Red => sgr(seq!['3', '1']),
        TermStyle::Green => sgr(seq!['3', '2']),
        TermStyle::Yellow => sgr(seq!['3', '3']),
        TermStyle::Cyan => sgr(seq!['3', '6']),
        TermStyle::White => sgr(seq!['3', '7']),
        TermStyle::Bold => sgr(seq!['1']),
        TermStyle::Dim => sgr(seq!['2']),
        TermStyle::BlueBold => sgr(seq!['3', '4']) + sgr(seq!['1']),
        TermStyle::CyanBold => sgr(seq!['3', '6']) + sgr(seq!['1']),
    }
}

/// What writing `text` in `style` gives: the text itself where the terminal
/// shows no colors, otherwise the style's codes, the text, and the code that
/// ends the style.
pub open spec fn styled(out: Seq<char>, text: Seq<char>, style: TermStyle) -> bool {
    out == text || out == style_codes(style) + text + style_reset()
}

/// Calls `console::Style::apply_to` with the `console` style of `style` and
/// writes the styled text out. Claims what the `Display` impl of
/// `console::StyledObject` writes for such a style: the text unchanged where
/// colors are off for standard output, else `ESC[<n>m` for the foreground
/// color and for each attribute, the text, and `ESC[0m`. Whether colors are
/// on depends on the terminal and the environment and is not claimed.
#[verifier::external_body]
pub(crate) fn paint(style: TermStyle, text: &str) -> (r: String)
    ensures
        styled(r@, text@, style),
{
    let base = console::Style::new();
    let s = match style {
        TermStyle::Red => base.red(),
        TermStyle::Green => base.green(),
        TermStyle::Yellow => base.yellow(),
        TermStyle::Cyan => base.cyan(),
        TermStyle::White => base.white(),
        TermStyle::Bold => base.bold(),
        TermStyle::Dim => base.dim(),
        TermStyle::BlueBold => base.blue().bold(),
        TermStyle::CyanBold => base.cyan().bold(),
    };
    s.apply_to(text).to_string()
}

/// The style of a bump: major red, minor cyan, patch green.
pub open spec fn bump_term_style(bump: VersionBump) -> TermStyle {
    match bump {
        VersionBump::Major => TermStyle::Red,
        VersionBump::Minor => TermStyle::Cyan,
        VersionBump::Patch => TermStyle::Green,
    }
}

/// The style of a bump: major red, minor cyan, patch green.
pub fn bump_term(bump: VersionBump) -> (r: TermStyle)
    ensures
        r == bump_term_style(bump),
{
    match bump {
        VersionBump::Major => TermStyle::Red,
        VersionBump::Minor => TermStyle::Cyan,
        VersionBump::Patch => TermStyle::Green,
    }
}

/// The new requirement's text `new` as shown beside `curr` for a bump:
/// unchanged where the two agree on every component, else kept up to the
/// highlight point and written from there on in the bump's color.
pub open spec fn colorized(out: Seq<char>, curr: Seq<char>, new: Seq<char>, bump: VersionBump) -> bool {
    match highlight_point(curr, new) {
        None => out == new,
        Some(k) => {
            &&& 0 <= k <= new.len()
            &&& k <= out.len()
            &&& out.take(k) == new.take(k)
            &&& styled(out.skip(k), new.skip(k), bump_term_style(bump))
        },
    }
}

/// Color the changed part of the version requirement based on the bump level.
/// The text up to the highlight point is kept as it is; the rest is painted.
pub fn colorize_req(curr_req_str: &str, new_req_str: &str, bump: VersionBump) -> (r: String)
    requires
        ascii(curr_req_str@),
        ascii(new_req_str@),
    ensures
        colorized(r@, curr_req_str@, new_req_str@, bump),
{
    let color = bump_term(bump);
    match highlight_start(curr_req_str, new_req_str) {
        None => new_req_str.to_owned(),
        Some(k) => {
            let cs = chars_of(new_req_str);
            let mut out = slice_chars(&cs, 0, k);
            let changed = string_of(slice_chars(&cs, k, cs.len()).as_slice());
            let painted = paint(color, changed.as_str());
            let ps = chars_of(painted.as_str());
            extend_chars(&mut out, &ps);
            assert(out@.take(k as int) =~= new_req_str@.take(k as int));
            assert(out@.skip(k as int) =~= ps@);
            assert(changed@ =~= new_req_str@.skip(k as int));
            string_of(out.as_slice())
        },
    }
}


/// What `first_digit` finds: the place of the first ASCII digit, with none
/// before it, or none at all.
proof fn lemma_first_digit_facts(s: Seq<char>)
    ensures
        match first_digit(s) {
            Some(i) => 0 <= i < s.len() && is_digit(s[i]) && forall|k: int| 0 <= k < i ==> !is_digit(#[trigger] s[k]),
            None => forall|k: int| 0 <= k < s.len() ==> !is_digit(#[trigger] s[k]),
        },
    decreases s.len(),
{
    if s.len() > 0 {
        lemma_first_digit_facts(s.drop_last());
        assert forall|k: int| 0 <= k < s.len() - 1 implies s[k] == s.drop_last()[k] by {}
    }
}

/// The place where the scan for the target ends is a published version that
/// the strategy allows.
proof fn lemma_pick_latest_eligible(
    vs: Seq<PackageVersion>,
    req: Seq<ComparatorView>,
    strategy: VersionStrategy,
    current: Option<VersionView>,
)
    ensures
        pick_latest(vs, req, strategy, current) matches Some(b) ==> 0 <= b < vs.len() && eligible(
            vs[b],
            req,
            strategy,
            current,
        ),
    decreases vs.len(),
{
    if vs.len() > 0 {
        lemma_pick_latest_eligible(vs.drop_last(), req, strategy, current);
    }
}

/// The target of an update is a published version that is not yanked,
/// whatever the strategy; a pre-release only where `--pre` is given or the
/// current version is a pre-release of the same major, minor and patch; and
/// with `--compatible`, one that the requirement accepts.
pub proof fn law_target_allowed(
    vs: Seq<PackageVersion>,
    req: Seq<ComparatorView>,
    strategy: VersionStrategy,
    current: Option<VersionView>,
)
    ensures
        pick_latest(vs, req, strategy, current) matches Some(b) ==> {
            let t = vs[b];
            &&& 0 <= b < vs.len()
            &&& !t.yanked
            &&& t.version@.pre.len() != 0 && !strategy.pre ==> (current matches Some(c) && c.pre.len() != 0
                && c.major == t.version@.major && c.minor == t.version@.minor && c.patch == t.version@.patch)
            &&& strategy.compatible ==> semver_matches(req, t.version@)
        },
{
    lemma_pick_latest_eligible(vs, req, strategy, current);
}

/// A pre-release target is written in full after the old requirement's
/// operator prefix, whatever shape the old requirement had: the rewritten
/// text is the old text up to its first digit (the operator, which holds no
/// digit; nothing where the text has no digit), then the whole target
/// version with its pre-release.
pub proof fn law_prerelease_target_written_in_full(old: Seq<ComparatorView>, new: VersionView)
    requires
        new.pre.len() != 0,
    ensures
        ({
            let t = req_text(old);
            exists|p: Seq<char>|
                #![trigger t.take(p.len() as int)]
                p.len() <= t.len() && t.take(p.len() as int) == p && (forall|k: int| 0 <= k < p.len() ==> !is_digit(#[trigger] p[k]))
                    && ((p.len() < t.len() ==> is_digit(t[p.len() as int])) || (p.len() == 0 && forall|k: int|
                    0 <= k < t.len() ==> !is_digit(#[trigger] t[k]))) && new_req_text(old, new) == p + version_text(new)
        }),
        old.len() == 1 ==> new_req_spec(old, new) == semver_parse_req(new_req_text(old, new)).unwrap(),
{
    let t = req_text(old);
    lemma_first_digit_facts(t);
    let p = t.take(digit_start(t));
    assert(t.take(p.len() as int) == p);
    match first_digit(t) {
        Some(i) => {
            assert(p.len() == i);
        },
        None => {
            assert(p.len() == 0);
        },
    }
}

} // verus!
