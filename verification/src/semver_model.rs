//! Semantic versions and version requirements.
//!
//! Values of [`SemVersion`] and [`SemReq`] are only ever produced by parsing
//! text with the `semver` crate; each keeps the parsed `semver` value beside
//! a plain copy of its fields, which is what the specifications speak of.

use vstd::prelude::*;
use crate::text::{nat_text, ascii};
use semver::Op;

verus! {

#[verifier::external_type_specification]
#[verifier::external_body]
pub struct ExSemverVersion(semver::Version);

#[verifier::external_type_specification]
#[verifier::external_body]
pub struct ExSemverVersionReq(semver::VersionReq);

pub assume_specification[ <semver::Version as Clone>::clone ](v: &semver::Version) -> semver::Version;

pub assume_specification[ <semver::VersionReq as Clone>::clone ](
    r: &semver::VersionReq,
) -> semver::VersionReq;

/// The operator of one comparator in a version requirement.
#[derive(Debug, Clone, Copy, PartialEq, Eq)]
pub enum SemOp {
    Exact,
    Greater,
    GreaterEq,
    Less,
    LessEq,
    Tilde,
    Caret,
    Wildcard,
}

/// The plain content of a version: `major.minor.patch[-pre][+build]`.
pub struct VersionView {
    pub major: u64,
    pub minor: u64,
    pub patch: u64,
    pub pre: Seq<char>,
    pub build: Seq<char>,
}

/// The plain content of one comparator such as `>=1.2` or `^0.3.1-beta`.
pub struct ComparatorView {
    pub op: SemOp,
    pub major: u64,
    pub minor: Option<u64>,
    pub patch: Option<u64>,
    pub pre: Seq<char>,
}

/// A semantic version as parsed by the `semver` crate.
#[derive(Debug, PartialEq, Eq)]
pub struct SemVersion {
    major: u64,
    minor: u64,
    patch: u64,
    pre: String,
    build: String,
    inner: semver::Version,
}

/// One comparator of a version requirement, as plain values.
#[derive(Debug, PartialEq, Eq)]
pub struct SemComparator {
    pub op: SemOp,
    pub major: u64,
    pub minor: Option<u64>,
    pub patch: Option<u64>,
    pub pre: String,
}

/// A version requirement such as `^1.2.3` or `>=1.0, <2.0`, as parsed by
/// the `semver` crate. No comparator at all is the requirement `*`.
#[derive(Debug, PartialEq, Eq)]
pub struct SemReq {
    comparators: Vec<SemComparator>,
    inner: semver::VersionReq,
}

impl View for SemVersion {
    type V = VersionView;

    closed spec fn view(&self) -> VersionView {
        VersionView {
            major: self.major,
            minor: self.minor,
            patch: self.patch,
            pre: self.pre@,
            build: self.build@,
        }
    }
}

impl View for SemComparator {
    type V = ComparatorView;

    open spec fn view(&self) -> ComparatorView {
        ComparatorView {
            op: self.op,
            major: self.major,
            minor: self.minor,
            patch: self.patch,
            pre: self.pre@,
        }
    }
}

impl View for SemReq {
    type V = Seq<ComparatorView>;

    closed spec fn view(&self) -> Seq<ComparatorView> {
        self.comparators@.map_values(|c: SemComparator| c@)
    }
}

/// The text of an operator, as `semver` writes it.
pub open spec fn op_text(op: SemOp) -> Seq<char> {
    match op {
        SemOp::Exact => seq!['='],
        SemOp::Greater => seq!['>'],
        SemOp::GreaterEq => seq!['>', '='],
        SemOp::Less => seq!['<'],
        SemOp::LessEq => seq!['<', '='],
        SemOp::Tilde => seq!['~'],
        SemOp::Caret => seq!['^'],
        SemOp::Wildcard => seq![],
    }
}

/// `text` behind a separator, or nothing when `text` is empty.
pub open spec fn tagged(sep: char, text: Seq<char>) -> Seq<char> {
    if text.len() == 0 {
        seq![]
    } else {
        seq![sep] + text
    }
}

/// The text of a version: `major.minor.patch`, then `-pre` and `+build`
/// where they are not empty.
pub open spec fn version_text(v: VersionView) -> Seq<char> {
    nat_text(v.major as nat) + seq!['.'] + nat_text(v.minor as nat) + seq!['.'] + nat_text(
        v.patch as nat,
    ) + tagged('-', v.pre) + tagged('+', v.build)
}

/// The text of a comparator: operator, major, and the minor, patch and
/// pre-release parts that it has; a wildcard without patch ends in `.*`.
pub open spec fn comparator_text(c: ComparatorView) -> Seq<char> {
    op_text(c.op) + nat_text(c.major as nat) + match c.minor {
        Some(minor) => seq!['.'] + nat_text(minor as nat) + match c.patch {
            Some(patch) => seq!['.'] + nat_text(patch as nat) + tagged('-', c.pre),
            None => if c.op == SemOp::Wildcard {
                seq!['.', '*']
            } else {
                seq![]
            },
        },
        None => if c.op == SemOp::Wildcard {
            seq!['.', '*']
        } else {
            seq![]
        },
    }
}

/// The comparators' texts joined by `", "`.
pub open spec fn comparators_text(cs: Seq<ComparatorView>) -> Seq<char>
    decreases cs.len(),
{
    if cs.len() == 0 {
        seq![]
    } else if cs.len() == 1 {
        comparator_text(cs[0])
    } else {
        comparators_text(cs.drop_last()) + seq![',', ' '] + comparator_text(cs.last())
    }
}

/// The text of a requirement: `*` when it has no comparator, else the
/// comparators joined by `", "`.
pub open spec fn req_text(cs: Seq<ComparatorView>) -> Seq<char> {
    if cs.len() == 0 {
        seq!['*']
    } else {
        comparators_text(cs)
    }
}

/// What `semver::Version::parse` gives for a text, when it accepts it.
pub uninterp spec fn semver_parse_version(text: Seq<char>) -> Option<VersionView>;

/// What `semver::VersionReq::parse` gives for a text, when it accepts it.
pub uninterp spec fn semver_parse_req(text: Seq<char>) -> Option<Seq<ComparatorView>>;

/// Whether `semver::VersionReq::matches` accepts a version for a requirement.
pub uninterp spec fn semver_matches(req: Seq<ComparatorView>, v: VersionView) -> bool;

/// The sign of `semver::Version`'s total order between two versions:
/// -1, 0 or 1.
pub uninterp spec fn semver_order(a: VersionView, b: VersionView) -> int;

/// Lexicographic comparison of two (major, minor, patch) triples, as -1, 0, 1.
pub open spec fn triple_order(a: VersionView, b: VersionView) -> int {
    if a.major != b.major {
        if a.major < b.major { -1 } else { 1 }
    } else if a.minor != b.minor {
        if a.minor < b.minor { -1 } else { 1 }
    } else if a.patch != b.patch {
        if a.patch < b.patch { -1 } else { 1 }
    } else {
        0
    }
}

/// Calls `semver::Version::parse`. Claims: the text is accepted exactly when
/// the named parse result exists, the fields are that result, and writing the
/// parsed version back out gives the text again (the parser takes no
/// whitespace, no leading zeros and keeps the identifiers verbatim). On
/// failure it gives the error's message.
#[verifier::external_body]
fn semver_version_parse(text: &str) -> (r: Result<SemVersion, String>)
    ensures
        r is Ok <==> semver_parse_version(text@) is Some,
        r matches Ok(v) ==> semver_parse_version(text@) == Some(v@),
        r matches Ok(v) ==> version_text(v@) == text@,
{
    match semver::Version::parse(text) {
        Ok(v) => Ok(SemVersion {
            major: v.major,
            minor: v.minor,
            patch: v.patch,
            pre: v.pre.as_str().to_string(),
            build: v.build.as_str().to_string(),
            inner: v,
        }),
        Err(e) => Err(e.to_string()),
    }
}

/// Calls `semver::VersionReq::parse`. Claims: the text is accepted exactly
/// when the named parse result exists and the comparators are that result.
/// On failure it gives the error's message.
#[verifier::external_body]
fn semver_req_parse(text: &str) -> (r: Result<SemReq, String>)
    ensures
        r is Ok <==> semver_parse_req(text@) is Some,
        r matches Ok(q) ==> semver_parse_req(text@) == Some(q@),
        r matches Ok(q) ==> ascii(req_text(q@)),
{
    match semver::VersionReq::parse(text) {
        Ok(q) => Ok(SemReq {
            comparators: q.comparators.iter().map(|c| SemComparator {
                op: match c.op {
                    Op::Exact => SemOp::Exact, Op::Greater => SemOp::Greater,
                    Op::GreaterEq => SemOp::GreaterEq, Op::Less => SemOp::Less,
                    Op::LessEq => SemOp::LessEq, Op::Tilde => SemOp::Tilde,
                    Op::Caret => SemOp::Caret, _ => SemOp::Wildcard,
                },
                major: c.major, minor: c.minor, patch: c.patch, pre: c.pre.to_string(),
            }).collect(),
            inner: q,
        }),
        Err(e) => Err(e.to_string()),
    }
}

/// Calls `semver::VersionReq::matches`; claims only that the answer is the
/// named one for the two plain values.
#[verifier::external_body]
fn semver_req_matches(req: &SemReq, v: &SemVersion) -> (r: bool)
    ensures
        r == semver_matches(req@, v@),
{
    req.inner.matches(&v.inner)
}

/// Calls `Ord::cmp` of `semver::Version` and gives the sign of the answer.
/// Claims what the derived lexicographic order and the `Ord` contract give:
/// the answer is the named one, is antisymmetric, is 0 exactly for equal
/// versions, follows (major, minor, patch) where those differ, and is
/// transitive.
#[verifier::external_body]
fn semver_precedence(a: &SemVersion, b: &SemVersion) -> (r: i8)
    ensures
        r == semver_order(a@, b@),
        -1 <= r <= 1,
        semver_order(b@, a@) == -r,
        r == 0 <==> a@ == b@,
        triple_order(a@, b@) != 0 ==> r == triple_order(a@, b@),
        forall|c: VersionView| r > 0 && #[trigger] semver_order(c, b@) <= 0 ==> semver_order(c, a@) < 0,
        forall|c: VersionView| r < 0 && #[trigger] semver_order(c, b@) >= 0 ==> semver_order(c, a@) > 0,
{
    match a.inner.cmp(&b.inner) {
        core::cmp::Ordering::Less => -1,
        core::cmp::Ordering::Equal => 0,
        core::cmp::Ordering::Greater => 1,
    }
}

/// Calls `Display` of `semver::Version`; claims the few-line format that its
/// source writes.
#[verifier::external_body]
fn semver_version_display(v: &SemVersion) -> (r: String)
    ensures
        r@ == version_text(v@),
{
    v.inner.to_string()
}

/// Calls `Display` of `semver::VersionReq`; claims the few-line format that
/// its source writes.
#[verifier::external_body]
fn semver_req_display(q: &SemReq) -> (r: String)
    ensures
        r@ == req_text(q@),
{
    q.inner.to_string()
}

/// Calls the derived `PartialEq` of `semver::Version`: all fields equal.
#[verifier::external_body]
fn semver_version_eq(a: &SemVersion, b: &SemVersion) -> (r: bool)
    ensures
        r == (a@ == b@),
{
    a.inner == b.inner
}

/// Calls the derived `PartialEq` of `semver::VersionReq`: the same
/// comparators in the same order.
#[verifier::external_body]
fn semver_req_eq(a: &SemReq, b: &SemReq) -> (r: bool)
    ensures
        r == (a@ == b@),
{
    a.inner == b.inner
}

impl std::str::FromStr for SemVersion {
    type Err = String;

    fn from_str(text: &str) -> (r: Result<SemVersion, String>)
        ensures
            r is Ok <==> semver_parse_version(text@) is Some,
            r matches Ok(v) ==> semver_parse_version(text@) == Some(v@),
            r matches Ok(v) ==> version_text(v@) == text@,
    {
        SemVersion::parse(text)
    }
}

impl std::str::FromStr for SemReq {
    type Err = String;

    fn from_str(text: &str) -> (r: Result<SemReq, String>)
        ensures
            r is Ok <==> semver_parse_req(text@) is Some,
            r matches Ok(q) ==> semver_parse_req(text@) == Some(q@),
    {
        SemReq::parse(text)
    }
}

impl SemVersion {
    /// Parses a semantic version such as `1.2.3-alpha.1+build.5`.
    pub fn parse(text: &str) -> (r: Result<SemVersion, String>)
        ensures
            r is Ok <==> semver_parse_version(text@) is Some,
            r matches Ok(v) ==> semver_parse_version(text@) == Some(v@),
            r matches Ok(v) ==> version_text(v@) == text@,
    {
        semver_version_parse(text)
    }

    pub fn major(&self) -> (r: u64)
        ensures
            r == self@.major,
    {
        self.major
    }

    pub fn minor(&self) -> (r: u64)
        ensures
            r == self@.minor,
    {
        self.minor
    }

    pub fn patch(&self) -> (r: u64)
        ensures
            r == self@.patch,
    {
        self.patch
    }

    /// The pre-release identifiers, empty for a release.
    pub fn pre(&self) -> (r: &str)
        ensures
            r@ == self@.pre,
    {
        self.pre.as_str()
    }

    /// The build metadata, empty when there is none.
    pub fn build(&self) -> (r: &str)
        ensures
            r@ == self@.build,
    {
        self.build.as_str()
    }

    /// A copy of this version.
    pub fn copy(&self) -> (r: SemVersion)
        ensures
            r@ == self@,
    {
        SemVersion {
            major: self.major,
            minor: self.minor,
            patch: self.patch,
            pre: self.pre.clone(),
            build: self.build.clone(),
            inner: self.inner.clone(),
        }
    }

    /// The text of this version.
    pub fn to_string(&self) -> (r: String)
        ensures
            r@ == version_text(self@),
    {
        semver_version_display(self)
    }

    /// Equality of all fields.
    pub fn same_as(&self, other: &SemVersion) -> (r: bool)
        ensures
            r == (self@ == other@),
    {
        semver_version_eq(self, other)
    }

    /// The sign of the total order of semantic versions between `self` and
    /// `other`.
    pub fn order(&self, other: &SemVersion) -> (r: i8)
        ensures
            r == semver_order(self@, other@),
            -1 <= r <= 1,
            semver_order(other@, self@) == -r,
            r == 0 <==> self@ == other@,
            triple_order(self@, other@) != 0 ==> r == triple_order(self@, other@),
            forall|c: VersionView| r > 0 && #[trigger] semver_order(c, other@) <= 0 ==> semver_order(c, self@) < 0,
            forall|c: VersionView| r < 0 && #[trigger] semver_order(c, other@) >= 0 ==> semver_order(c, self@) > 0,
    {
        semver_precedence(self, other)
    }
}

impl SemReq {
    /// The text of a requirement is ASCII: operators, digits, dots and
    /// pre-release identifiers, which `semver` limits to ASCII letters,
    /// digits and `-`.
    #[verifier::type_invariant]
    pub closed spec fn text_is_ascii(self) -> bool {
        ascii(req_text(self@))
    }

    /// The text of every requirement is ASCII.
    pub fn check_text_ascii(&self)
        ensures
            ascii(req_text(self@)),
    {
        proof {
            use_type_invariant(self);
        }
    }

    /// Parses a version requirement such as `^1.2`, `~0.4.0` or `>=1, <2`.
    pub fn parse(text: &str) -> (r: Result<SemReq, String>)
        ensures
            r is Ok <==> semver_parse_req(text@) is Some,
            r matches Ok(q) ==> semver_parse_req(text@) == Some(q@),
    {
        semver_req_parse(text)
    }

    /// The number of comparators; zero for `*`.
    pub fn comparator_count(&self) -> (r: usize)
        ensures
            r == self@.len(),
    {
        self.comparators.len()
    }

    /// Whether this is the requirement `*`, which has no comparator.
    pub fn is_star(&self) -> (r: bool)
        ensures
            r == (self@.len() == 0),
    {
        self.comparators.len() == 0
    }

    /// Whether `v` satisfies this requirement.
    pub fn matches(&self, v: &SemVersion) -> (r: bool)
        ensures
            r == semver_matches(self@, v@),
    {
        semver_req_matches(self, v)
    }

    /// The text of this requirement.
    pub fn to_string(&self) -> (r: String)
        ensures
            r@ == req_text(self@),
    {
        semver_req_display(self)
    }

    /// Equality of the comparator lists.
    pub fn same_as(&self, other: &SemReq) -> (r: bool)
        ensures
            r == (self@ == other@),
    {
        semver_req_eq(self, other)
    }

    /// A copy of this requirement.
    pub fn copy(&self) -> (r: SemReq)
        ensures
            r@ == self@,
    {
        let mut cs: Vec<SemComparator> = Vec::new();
        let mut i: usize = 0;
        while i < self.comparators.len()
            invariant
                i <= self.comparators@.len(),
                cs@.len() == i,
                forall|j: int| 0 <= j < i ==> #[trigger] cs@[j]@ == self.comparators@[j]@,
            decreases self.comparators@.len() - i,
        {
            let c = &self.comparators[i];
            cs.push(SemComparator { op: c.op, major: c.major, minor: c.minor, patch: c.patch, pre: c.pre.clone() });
            i = i + 1;
        }
        proof {
            use_type_invariant(self);
            assert(cs@.map_values(|c: SemComparator| c@) =~= self@);
        }
        let r = SemReq { comparators: cs, inner: self.inner.clone() };
        r
    }
}

} // verus!
