//! Rewriting the version requirements of a Cargo manifest in place, through
//! a format-preserving TOML document.

use vstd::prelude::*;
use crate::text::{chars_of, string_of, trim_chars, trim_ws, is_digit};
use crate::semver_model::{SemReq, ComparatorView, req_text, semver_parse_req};
use crate::update::str_eq;
use crate::registry::{CargoError, labelled};
use vstd::seq_lib::lemma_seq_contains_after_push;

verus! {

#[verifier::external_type_specification]
#[verifier::external_body]
pub struct ExTomlItem(toml_edit::Item);

#[verifier::external_type_specification]
#[verifier::external_body]
pub struct ExTomlDocument(toml_edit::DocumentMut);

/// The texts of a list of strings.
pub open spec fn string_views(v: Seq<String>) -> Seq<Seq<char>> {
    v.map_values(|s: String| s@)
}

/// The kind of an item of a TOML document.
pub enum TomlKind {
    Str(Seq<char>),
    Bool(bool),
    Table,
    InlineTable,
    TableArray,
    Other,
}

/// The visible contents of an item: each path of keys that `Item::get`
/// follows from it, with the kind of the item reached. The empty path is the
/// item itself, unless it is `Item::None`.
pub uninterp spec fn toml_item_tree(item: toml_edit::Item) -> Map<Seq<Seq<char>>, TomlKind>;

/// The visible contents of a document: those of its root item.
pub uninterp spec fn toml_document_tree(doc: toml_edit::DocumentMut) -> Map<Seq<Seq<char>>, TomlKind>;

/// What parsing a text as a TOML document gives: its contents, or the
/// error's message.
pub uninterp spec fn toml_parsed(text: Seq<char>) -> Result<Map<Seq<Seq<char>>, TomlKind>, Seq<char>>;

/// The kind at `p`, if there is an item there.
pub open spec fn kind_at(m: Map<Seq<Seq<char>>, TomlKind>, p: Seq<Seq<char>>) -> Option<TomlKind> {
    if m.dom().contains(p) {
        Some(m[p])
    } else {
        None
    }
}

pub open spec fn is_table_like(k: Option<TomlKind>) -> bool {
    k == Some(TomlKind::Table) || k == Some(TomlKind::InlineTable)
}

/// What is below `p`, seen from `p`.
pub open spec fn subtree(m: Map<Seq<Seq<char>>, TomlKind>, p: Seq<Seq<char>>) -> Map<Seq<Seq<char>>, TomlKind> {
    Map::new(|q: Seq<Seq<char>>| m.dom().contains(p + q), |q: Seq<Seq<char>>| m[p + q])
}

/// `m` with what is at and below `p` replaced by `c`.
pub open spec fn graft(
    m: Map<Seq<Seq<char>>, TomlKind>,
    p: Seq<Seq<char>>,
    c: Map<Seq<Seq<char>>, TomlKind>,
) -> Map<Seq<Seq<char>>, TomlKind> {
    Map::new(
        |q: Seq<Seq<char>>|
            if p.is_prefix_of(q) {
                c.dom().contains(q.skip(p.len() as int))
            } else {
                m.dom().contains(q)
            },
        |q: Seq<Seq<char>>|
            if p.is_prefix_of(q) {
                c[q.skip(p.len() as int)]
            } else {
                m[q]
            },
    )
}

/// A single item of kind `k` with nothing below it.
pub open spec fn leaf(k: TomlKind) -> Map<Seq<Seq<char>>, TomlKind> {
    map![Seq::empty() => k]
}

/// What stepping into a key makes of an item: `Item::None` turns into an
/// empty inline table, anything else stays.
pub open spec fn opened(m: Map<Seq<Seq<char>>, TomlKind>) -> Map<Seq<Seq<char>>, TomlKind> {
    if m.dom().contains(Seq::empty()) {
        m
    } else {
        leaf(TomlKind::InlineTable)
    }
}

/// Tables that stand in inline tables cannot be written out; a parsed
/// document has none.
pub open spec fn inline_values_only(m: Map<Seq<Seq<char>>, TomlKind>) -> bool {
    forall|p: Seq<Seq<char>>, k: Seq<char>|
        #![trigger m.dom().contains(p.push(k)), m[p]]
        m.dom().contains(p) && m[p] == TomlKind::InlineTable && m.dom().contains(p.push(k))
            ==> m[p.push(k)] != TomlKind::Table && m[p.push(k)] != TomlKind::TableArray
}

/// The shape of every item's contents: each path's prefixes are paths, and
/// no table stands in an inline table (TOML has no way to write one there).
pub open spec fn well_formed_tree(m: Map<Seq<Seq<char>>, TomlKind>) -> bool {
    &&& forall|p: Seq<Seq<char>>, k: Seq<char>| #[trigger] m.dom().contains(p.push(k)) ==> m.dom().contains(p)
    &&& inline_values_only(m)
}

/// A document that can be written out: its root is a table.
pub open spec fn writable_tree(m: Map<Seq<Seq<char>>, TomlKind>) -> bool {
    kind_at(m, Seq::empty()) == Some(TomlKind::Table) && well_formed_tree(m)
}

/// The kind of an item, as plain values.
pub enum ItemKind {
    Absent,
    Str(String),
    Bool(bool),
    Table,
    InlineTable,
    TableArray,
    Other,
}

pub open spec fn item_kind_view(k: ItemKind) -> Option<TomlKind> {
    match k {
        ItemKind::Absent => None,
        ItemKind::Str(s) => Some(TomlKind::Str(s@)),
        ItemKind::Bool(b) => Some(TomlKind::Bool(b)),
        ItemKind::Table => Some(TomlKind::Table),
        ItemKind::InlineTable => Some(TomlKind::InlineTable),
        ItemKind::TableArray => Some(TomlKind::TableArray),
        ItemKind::Other => Some(TomlKind::Other),
    }
}

/// Calls `DocumentMut::from_str`. Claims: the document's contents, or the
/// error's message, are the named parse result of the text; the root of a
/// parsed document is a table, every path reached through keys passes
/// through its prefixes, and TOML's grammar puts no table in an inline
/// table.
#[verifier::external_body]
pub(crate) fn toml_parse(text: &str) -> (r: Result<toml_edit::DocumentMut, String>)
    ensures
        r is Ok <==> toml_parsed(text@) is Ok,
        r matches Ok(d) ==> toml_parsed(text@)->Ok_0 == toml_document_tree(d),
        r matches Ok(d) ==> writable_tree(toml_document_tree(d)),
        r matches Err(e) ==> toml_parsed(text@)->Err_0 == e@,
{
    match text.parse::<toml_edit::DocumentMut>() {
        Ok(d) => Ok(d),
        Err(e) => Err(e.to_string()),
    }
}

/// Calls `Display` of `DocumentMut`. Claims: parsing the text again gives
/// the same contents. (The text also keeps the layout and comments of the
/// parsed document; that is not stated.)
#[verifier::external_body]
fn toml_render(doc: &toml_edit::DocumentMut) -> (r: String)
    requires
        writable_tree(toml_document_tree(*doc)),
    ensures
        toml_parsed(r@) is Ok,
        toml_parsed(r@)->Ok_0 == toml_document_tree(*doc),
{
    doc.to_string()
}

/// Calls `DocumentMut::as_item_mut`: the root item, whose contents are the
/// document's; the document changes only through it.
#[verifier::external_body]
fn toml_root_mut(doc: &mut toml_edit::DocumentMut) -> (r: &mut toml_edit::Item)
    ensures
        toml_item_tree(*r) == toml_document_tree(*old(doc)),
        toml_document_tree(*final(doc)) == toml_item_tree(*final(r)),
        *final(r) == *r ==> *final(doc) == *old(doc),
{
    doc.as_item_mut()
}

/// Calls `DocumentMut::as_item`: the root item, whose contents are the
/// document's.
#[verifier::external_body]
pub(crate) fn toml_root(doc: &toml_edit::DocumentMut) -> (r: &toml_edit::Item)
    ensures
        toml_item_tree(*r) == toml_document_tree(*doc),
{
    doc.as_item()
}

/// Calls `Item::get` with a key: the item under `key`, if there is one.
#[verifier::external_body]
pub(crate) fn toml_get<'a>(item: &'a toml_edit::Item, key: &str) -> (r: Option<&'a toml_edit::Item>)
    ensures
        r is Some <==> toml_item_tree(*item).dom().contains(seq![key@]),
        r matches Some(c) ==> toml_item_tree(*c) == subtree(toml_item_tree(*item), seq![key@]),
{
    item.get(key)
}

/// Tells the variants of `Item` and `Value` apart, taking the text of a
/// string and the value of a boolean.
#[verifier::external_body]
pub(crate) fn toml_kind(item: &toml_edit::Item) -> (r: ItemKind)
    ensures
        item_kind_view(r) == kind_at(toml_item_tree(*item), Seq::empty()),
{
    match item {
        toml_edit::Item::None => ItemKind::Absent,
        toml_edit::Item::Table(_) => ItemKind::Table,
        toml_edit::Item::ArrayOfTables(_) => ItemKind::TableArray,
        toml_edit::Item::Value(toml_edit::Value::String(s)) => ItemKind::Str(s.value().clone()),
        toml_edit::Item::Value(toml_edit::Value::Boolean(b)) => ItemKind::Bool(*b.value()),
        toml_edit::Item::Value(toml_edit::Value::InlineTable(_)) => ItemKind::InlineTable,
        toml_edit::Item::Value(_) => ItemKind::Other,
    }
}

/// Calls `Table::iter` on a table item and keeps the keys: each key of the
/// table once, the keys of `Item::None` entries left out as `Table::get`
/// leaves them out.
#[verifier::external_body]
pub(crate) fn toml_table_keys(item: &toml_edit::Item) -> (r: Vec<String>)
    requires
        kind_at(toml_item_tree(*item), Seq::empty()) == Some(TomlKind::Table),
    ensures
        string_views(r@).no_duplicates(),
        forall|k: Seq<char>|
            string_views(r@).contains(k) <==> toml_item_tree(*item).dom().contains(seq![k]),
{
    match item {
        toml_edit::Item::Table(t) => t.iter().map(|(k, _)| k.to_string()).collect(),
        _ => Vec::new(),
    }
}

/// Calls `Item::get_mut` with a key. On a table or an inline table it gives
/// the entry, adding an empty one (`Item::None`, which nothing sees) where
/// the key is missing; on `Item::None` it first makes the item an empty
/// inline table; on anything else it gives nothing and changes nothing. On
/// a table or an inline table that has the key, it gives the entry in place
/// and changes nothing else: the item changes only through the entry.
#[verifier::external_body]
fn toml_child_mut<'a>(item: &'a mut toml_edit::Item, key: &str) -> (r: Option<&'a mut toml_edit::Item>)
    ensures
        r is Some <==> (is_table_like(kind_at(toml_item_tree(*old(item)), Seq::empty()))
            || kind_at(toml_item_tree(*old(item)), Seq::empty()) is None),
        r matches Some(c) ==> toml_item_tree(*c) == subtree(toml_item_tree(*old(item)), seq![key@]),
        r matches Some(c) ==> toml_item_tree(*final(item)) == graft(
            opened(toml_item_tree(*old(item))),
            seq![key@],
            toml_item_tree(*final(c)),
        ),
        r is None ==> *final(item) == *old(item),
        r matches Some(c) ==> (is_table_like(kind_at(toml_item_tree(*old(item)), Seq::empty()))
            && toml_item_tree(*old(item)).dom().contains(seq![key@]) && *final(c) == *c ==> *final(item) == *old(item)),
{
    item.get_mut(key)
}

/// Assigns `toml_edit::value(text)`: the item becomes that string.
#[verifier::external_body]
fn toml_set_str(item: &mut toml_edit::Item, text: &str)
    ensures
        toml_item_tree(*final(item)) == leaf(TomlKind::Str(text@)),
{
    *item = toml_edit::value(text);
}


/// One requirement to rewrite: in the section `section` (such as
/// `dependencies` or `workspace.dependencies`), the entry `toml_key` (the
/// name or alias of the dependency) gets `new_req` where its requirement is
/// `old_req`.
pub struct ManifestEdit {
    pub section: Vec<String>,
    pub toml_key: String,
    pub new_req: SemReq,
    pub old_req: SemReq,
    /// Whether a requirement written without an operator stays so.
    pub preserve_bare: bool,
}

pub struct EditView {
    pub section: Seq<Seq<char>>,
    pub key: Seq<char>,
    pub new_req: Seq<ComparatorView>,
    pub old_req: Seq<ComparatorView>,
    pub preserve_bare: bool,
}

impl View for ManifestEdit {
    type V = EditView;

    open spec fn view(&self) -> EditView {
        EditView {
            section: string_views(self.section@),
            key: self.toml_key@,
            new_req: self.new_req@,
            old_req: self.old_req@,
            preserve_bare: self.preserve_bare,
        }
    }
}

/// Whether a requirement is written without an operator: after white space
/// it starts with a digit.
pub open spec fn is_bare(text: Seq<char>) -> bool {
    trim_ws(text).len() > 0 && is_digit(trim_ws(text)[0])
}

/// The text written for the new requirement: as `semver` writes it, without
/// its leading `^` where a bare requirement stays bare.
pub open spec fn written_text(e: EditView, current: Seq<char>) -> Seq<char> {
    let t = req_text(e.new_req);
    if e.preserve_bare && is_bare(current) && t.len() > 0 && t[0] == '^' {
        t.drop_first()
    } else {
        t
    }
}

/// The requirement text of a dependency entry: the entry itself where it is
/// a string; the `version` of a table that does not say `workspace = true`.
pub open spec fn entry_requirement(t: Map<Seq<Seq<char>>, TomlKind>) -> Option<Seq<char>> {
    match kind_at(t, Seq::empty()) {
        Some(TomlKind::Str(s)) => Some(s),
        Some(TomlKind::Table) | Some(TomlKind::InlineTable) => {
            if kind_at(t, seq!["workspace"@]) == Some(TomlKind::Bool(true)) {
                None
            } else {
                match kind_at(t, seq!["version"@]) {
                    Some(TomlKind::Str(s)) => Some(s),
                    _ => None,
                }
            }
        },
        _ => None,
    }
}

/// The rewritten entry, where the entry is rewritten: its requirement parses
/// to the expected one, and the new text replaces it.
pub open spec fn rewritten_entry(t: Map<Seq<Seq<char>>, TomlKind>, e: EditView) -> Option<Map<Seq<Seq<char>>, TomlKind>> {
    match entry_requirement(t) {
        Some(s) => {
            if semver_parse_req(s) == Some(e.old_req) {
                let w = leaf(TomlKind::Str(written_text(e, s)));
                if kind_at(t, Seq::empty()) == Some(TomlKind::Str(s)) {
                    Some(w)
                } else {
                    Some(graft(t, seq!["version"@], w))
                }
            } else {
                None
            }
        },
        None => None,
    }
}

/// What editing its entry does to a section, and whether it was rewritten.
pub open spec fn section_entry_edit(m: Map<Seq<Seq<char>>, TomlKind>, e: EditView) -> (Map<Seq<Seq<char>>, TomlKind>, bool) {
    if is_table_like(kind_at(m, Seq::empty())) && m.dom().contains(seq![e.key]) {
        match rewritten_entry(subtree(m, seq![e.key]), e) {
            Some(c) => (graft(m, seq![e.key], c), true),
            None => (m, false),
        }
    } else {
        (m, false)
    }
}

/// What editing the entry of the section at `path` below an item does to
/// the item, and whether the entry was rewritten. Each key of the path is
/// stepped into where the item is a table that has it; a section that is
/// missing is left alone.
pub open spec fn section_edit(m: Map<Seq<Seq<char>>, TomlKind>, path: Seq<Seq<char>>, e: EditView) -> (Map<Seq<Seq<char>>, TomlKind>, bool)
    decreases path.len(),
{
    if path.len() == 0 {
        section_entry_edit(m, e)
    } else if is_table_like(kind_at(m, Seq::empty())) && m.dom().contains(seq![path[0]]) {
        let (c, ok) = section_edit(subtree(m, seq![path[0]]), path.drop_first(), e);
        (graft(m, seq![path[0]], c), ok)
    } else {
        (m, false)
    }
}

/// The names of the tables of dependencies that also stand under platform
/// targets.
pub open spec fn is_dependency_table_name(s: Seq<char>) -> bool {
    s == "dependencies"@ || s == "dev-dependencies"@ || s == "build-dependencies"@
}

/// Whether an edit also reaches the platform targets: its section is one
/// table of dependencies, and the document has a `target` table.
pub open spec fn edits_targets(m: Map<Seq<Seq<char>>, TomlKind>, e: EditView) -> bool {
    e.section.len() == 1 && is_dependency_table_name(e.section[0]) && kind_at(m, seq!["target"@])
        == Some(TomlKind::Table)
}

/// Where the edit's entry stands under the target `t`.
pub open spec fn target_entry_path(e: EditView, t: Seq<char>) -> Seq<Seq<char>> {
    seq!["target"@, t, e.section[0], e.key]
}

/// Whether the target `t` is a table whose table of the edit's kind of
/// dependencies has the edit's entry.
pub open spec fn target_has_entry(m: Map<Seq<Seq<char>>, TomlKind>, e: EditView, t: Seq<char>) -> bool {
    &&& kind_at(m, seq!["target"@, t]) == Some(TomlKind::Table)
    &&& kind_at(m, seq!["target"@, t, e.section[0]]) == Some(TomlKind::Table)
    &&& m.dom().contains(target_entry_path(e, t))
}

/// Where `p` lies in the entry of a target named in `names` that the edit
/// rewrites: the rewritten entry.
pub open spec fn target_rewrite_at(
    m: Map<Seq<Seq<char>>, TomlKind>,
    e: EditView,
    names: Set<Seq<char>>,
    p: Seq<Seq<char>>,
) -> Option<Map<Seq<Seq<char>>, TomlKind>> {
    if p.len() >= 4 && names.contains(p[1]) && p.take(4) == target_entry_path(e, p[1])
        && target_has_entry(m, e, p[1]) {
        rewritten_entry(subtree(m, p.take(4)), e)
    } else {
        None
    }
}

/// The document with the edit's entry rewritten under each target named in
/// `names` that has it.
pub open spec fn targets_edit_within(m: Map<Seq<Seq<char>>, TomlKind>, e: EditView, names: Set<Seq<char>>) -> Map<Seq<Seq<char>>, TomlKind> {
    Map::new(
        |p: Seq<Seq<char>>|
            match target_rewrite_at(m, e, names, p) {
                Some(c) => c.dom().contains(p.skip(4)),
                None => m.dom().contains(p),
            },
        |p: Seq<Seq<char>>|
            match target_rewrite_at(m, e, names, p) {
                Some(c) => c[p.skip(4)],
                None => m[p],
            },
    )
}

/// What one edit does to a document: its entry is rewritten in its section
/// and, for a table of dependencies, under every platform target that has
/// it.
pub open spec fn manifest_edit_step(m: Map<Seq<Seq<char>>, TomlKind>, e: EditView) -> Map<Seq<Seq<char>>, TomlKind> {
    let main = section_edit(m, e.section, e).0;
    if edits_targets(m, e) {
        targets_edit_within(main, e, Set::full())
    } else {
        main
    }
}

/// What a list of edits does to a document, one after the other.
pub open spec fn manifest_edits(m: Map<Seq<Seq<char>>, TomlKind>, edits: Seq<EditView>) -> Map<Seq<Seq<char>>, TomlKind>
    decreases edits.len(),
{
    if edits.len() == 0 {
        m
    } else {
        manifest_edit_step(manifest_edits(m, edits.drop_last()), edits.last())
    }
}

/// Putting back what was below a path leaves the map as it was.
pub proof fn lemma_graft_subtree(m: Map<Seq<Seq<char>>, TomlKind>, p: Seq<Seq<char>>)
    ensures
        graft(m, p, subtree(m, p)) == m,
{
    let g = graft(m, p, subtree(m, p));
    assert forall|q: Seq<Seq<char>>| p.is_prefix_of(q) implies p + q.skip(p.len() as int) == q by {
        assert(p + q.skip(p.len() as int) =~= q);
    }
    assert(g =~= m);
}

/// Seen from the empty path, the map is itself.
pub proof fn lemma_subtree_empty(m: Map<Seq<Seq<char>>, TomlKind>)
    ensures
        subtree(m, Seq::empty()) == m,
{
    assert forall|q: Seq<Seq<char>>| #![auto] Seq::<Seq<char>>::empty() + q == q by {
        assert(Seq::<Seq<char>>::empty() + q =~= q);
    }
    assert(subtree(m, Seq::empty()) =~= m);
}

/// Replacing everything gives the replacement.
pub proof fn lemma_graft_empty(m: Map<Seq<Seq<char>>, TomlKind>, c: Map<Seq<Seq<char>>, TomlKind>)
    ensures
        graft(m, Seq::empty(), c) == c,
{
    assert forall|q: Seq<Seq<char>>| #![auto] Seq::<Seq<char>>::empty().is_prefix_of(q) && q.skip(0) == q by {
        assert(q.skip(0) =~= q);
        assert(q.subrange(0, 0) =~= Seq::<Seq<char>>::empty());
    }
    assert(graft(m, Seq::empty(), c) =~= c);
}

/// Below `q` below `p` is below `p + q`.
pub proof fn lemma_subtree_subtree(m: Map<Seq<Seq<char>>, TomlKind>, p: Seq<Seq<char>>, q: Seq<Seq<char>>)
    ensures
        subtree(subtree(m, p), q) == subtree(m, p + q),
{
    assert forall|x: Seq<Seq<char>>| #![auto] p + (q + x) == (p + q) + x by {
        assert(p + (q + x) =~= (p + q) + x);
    }
    assert(subtree(subtree(m, p), q) =~= subtree(m, p + q));
}

/// Replacing below `q` in what is below `p` is replacing below `p + q`.
pub proof fn lemma_graft_graft(
    m: Map<Seq<Seq<char>>, TomlKind>,
    p: Seq<Seq<char>>,
    q: Seq<Seq<char>>,
    c: Map<Seq<Seq<char>>, TomlKind>,
)
    ensures
        graft(m, p, graft(subtree(m, p), q, c)) == graft(m, p + q, c),
{
    let lhs = graft(m, p, graft(subtree(m, p), q, c));
    let rhs = graft(m, p + q, c);
    assert forall|x: Seq<Seq<char>>|
        #![trigger lhs.dom().contains(x)]
        #![trigger rhs.dom().contains(x)]
        lhs.dom().contains(x) == rhs.dom().contains(x) && (lhs.dom().contains(x) ==> lhs[x] == rhs[x]) by {
        if p.is_prefix_of(x) {
            let y = x.skip(p.len() as int);
            assert(p + y =~= x);
            if q.is_prefix_of(y) {
                assert((p + q).is_prefix_of(x)) by {
                    assert(x.subrange(0, (p + q).len() as int) =~= p + q);
                }
                assert(x.skip((p + q).len() as int) =~= y.skip(q.len() as int));
            } else if (p + q).is_prefix_of(x) {
                assert(x.subrange(0, (p + q).len() as int) =~= p + q);
                assert forall|j: int| 0 <= j < q.len() implies y[j] == q[j] by {
                    assert(y[j] == x[p.len() + j]);
                    assert(x.subrange(0, (p + q).len() as int)[p.len() + j] == x[p.len() + j]);
                    assert((p + q)[p.len() + j] == q[j]);
                }
                assert(y.subrange(0, q.len() as int) =~= q);
                assert(false);
            }
        } else {
            if (p + q).is_prefix_of(x) {
                assert(x.subrange(0, (p + q).len() as int) =~= p + q);
                assert forall|j: int| 0 <= j < p.len() implies x[j] == p[j] by {
                    assert(x.subrange(0, (p + q).len() as int)[j] == x[j]);
                    assert((p + q)[j] == p[j]);
                }
                assert(x.subrange(0, p.len() as int) =~= p);
                assert(false);
            }
        }
    }
    assert(lhs.dom() =~= rhs.dom());
    assert(lhs =~= rhs);
}

/// Where every item along the path is a table, editing the section's entry
/// changes the section in place and nothing else.
pub proof fn lemma_section_edit_present(m: Map<Seq<Seq<char>>, TomlKind>, path: Seq<Seq<char>>, e: EditView)
    requires
        forall|i: int| 0 <= i <= path.len() ==> #[trigger] is_table_like(kind_at(m, path.take(i))),
    ensures
        section_edit(m, path, e) == (
            graft(m, path, section_entry_edit(subtree(m, path), e).0),
            section_entry_edit(subtree(m, path), e).1,
        ),
    decreases path.len(),
{
    if path.len() == 0 {
        assert(path.take(0) =~= Seq::<Seq<char>>::empty());
        assert(path =~= Seq::<Seq<char>>::empty());
        lemma_subtree_empty(m);
        lemma_graft_empty(m, section_entry_edit(m, e).0);
    } else {
        let k = path[0];
        let rest = path.drop_first();
        let sub = subtree(m, seq![k]);
        assert(path.take(0) =~= Seq::<Seq<char>>::empty());
        assert(is_table_like(kind_at(m, path.take(0))));
        assert(path.take(1) =~= seq![k]);
        assert(is_table_like(kind_at(m, path.take(1))));
        assert(m.dom().contains(seq![k]));
        assert forall|i: int| 0 <= i <= rest.len() implies #[trigger] is_table_like(kind_at(sub, rest.take(i))) by {
            assert(seq![k] + rest.take(i) =~= path.take(i + 1));
            assert(is_table_like(kind_at(m, path.take(i + 1))));
        }
        lemma_section_edit_present(sub, rest, e);
        assert(seq![k] + rest =~= path);
        lemma_subtree_subtree(m, seq![k], rest);
        lemma_graft_graft(m, seq![k], rest, section_entry_edit(subtree(m, path), e).0);
    }
}

/// The kind of the item at `p` is the kind of the root below `p`.
pub proof fn lemma_subtree_root(m: Map<Seq<Seq<char>>, TomlKind>, p: Seq<Seq<char>>)
    ensures
        kind_at(subtree(m, p), Seq::empty()) == kind_at(m, p),
{
    assert(p + Seq::<Seq<char>>::empty() =~= p);
}

/// Rewriting one more target entry: editing the section of the target
/// `t` in a document whose entries are rewritten under the targets in
/// `names` rewrites them under `names` and `t`.
proof fn lemma_target_step(main: Map<Seq<Seq<char>>, TomlKind>, e: EditView, names: Set<Seq<char>>, t: Seq<char>)
    requires
        kind_at(main, Seq::empty()) == Some(TomlKind::Table),
        kind_at(main, seq!["target"@]) == Some(TomlKind::Table),
        e.section.len() == 1,
        target_has_entry(main, e, t),
        !names.contains(t),
    ensures
        section_edit(targets_edit_within(main, e, names), seq!["target"@, t, e.section[0]], e).0
            == targets_edit_within(main, e, names.insert(t)),
{
    let cur = targets_edit_within(main, e, names);
    let path = seq!["target"@, t, e.section[0]];
    let entry = target_entry_path(e, t);
    // Paths shorter than an entry's are as they were.
    assert forall|x: Seq<Seq<char>>| x.len() < 4 implies #[trigger] kind_at(cur, x) == kind_at(main, x) by {}
    assert(path.take(0) =~= Seq::<Seq<char>>::empty());
    assert(path.take(1) =~= seq!["target"@]);
    assert(path.take(2) =~= seq!["target"@, t]);
    assert(path.take(3) =~= path);
    assert forall|i: int| 0 <= i <= path.len() implies #[trigger] is_table_like(kind_at(cur, path.take(i))) by {
        assert(kind_at(cur, path.take(i)) == kind_at(main, path.take(i)));
    }
    lemma_section_edit_present(cur, path, e);
    assert(path.push(e.key) =~= entry);
    assert(path + seq![e.key] =~= entry);
    // The entry below `t` is as it was.
    assert forall|q: Seq<Seq<char>>| #![trigger cur.dom().contains(entry + q)]
        cur.dom().contains(entry + q) == main.dom().contains(entry + q)
        && (main.dom().contains(entry + q) ==> cur[entry + q] == main[entry + q]) by {
        assert((entry + q)[1] == t);
    }
    assert(subtree(cur, entry) =~= subtree(main, entry));
    lemma_subtree_subtree(cur, path, seq![e.key]);
    lemma_subtree_root(cur, path);
    assert(cur.dom().contains(entry)) by {
        assert(entry + Seq::<Seq<char>>::empty() =~= entry);
    }
    let sub = subtree(cur, path);
    assert(sub.dom().contains(seq![e.key]));
    let next = targets_edit_within(main, e, names.insert(t));
    match rewritten_entry(subtree(main, entry), e) {
        Some(c) => {
            lemma_graft_graft(cur, path, seq![e.key], c);
            let g = graft(cur, entry, c);
            assert forall|x: Seq<Seq<char>>|
                #![trigger g.dom().contains(x)]
                #![trigger next.dom().contains(x)]
                g.dom().contains(x) == next.dom().contains(x) && (g.dom().contains(x) ==> g[x] == next[x]) by {
                if entry.is_prefix_of(x) {
                    assert(x.take(4) =~= entry);
                    assert(x[1] == t);
                    assert(target_rewrite_at(main, e, names.insert(t), x) == Some(c));
                } else {
                    if x.len() >= 4 && x[1] == t && x.take(4) == target_entry_path(e, x[1]) {
                        assert(x.subrange(0, 4) =~= entry);
                    }
                    assert(target_rewrite_at(main, e, names.insert(t), x) == target_rewrite_at(main, e, names, x));
                }
            }
            assert(g.dom() =~= next.dom());
            assert(g =~= next);
        },
        None => {
            lemma_graft_subtree(cur, path);
            assert forall|x: Seq<Seq<char>>|
                #![trigger cur.dom().contains(x)]
                #![trigger next.dom().contains(x)]
                cur.dom().contains(x) == next.dom().contains(x) && (cur.dom().contains(x) ==> cur[x] == next[x]) by {
                if x.len() >= 4 && x[1] == t && x.take(4) == target_entry_path(e, x[1]) {
                    assert(x.take(4) =~= entry);
                }
                assert(target_rewrite_at(main, e, names.insert(t), x) == target_rewrite_at(main, e, names, x));
            }
            assert(cur.dom() =~= next.dom());
            assert(cur =~= next);
        },
    }
}

/// What is below a path of a well-formed tree is well-formed.
pub proof fn lemma_subtree_well_formed(m: Map<Seq<Seq<char>>, TomlKind>, p: Seq<Seq<char>>)
    requires
        well_formed_tree(m),
    ensures
        well_formed_tree(subtree(m, p)),
{
    let s = subtree(m, p);
    assert forall|y: Seq<Seq<char>>, k: Seq<char>| #[trigger] s.dom().contains(y.push(k)) implies s.dom().contains(y) by {
        assert(p + y.push(k) =~= (p + y).push(k));
    }
    assert forall|y: Seq<Seq<char>>, k: Seq<char>|
        #![trigger s.dom().contains(y.push(k)), s[y]]
        s.dom().contains(y) && s[y] == TomlKind::InlineTable && s.dom().contains(y.push(k))
        implies s[y.push(k)] != TomlKind::Table && s[y.push(k)] != TomlKind::TableArray by {
        assert(p + y.push(k) =~= (p + y).push(k));
        assert(m.dom().contains((p + y).push(k)) && m[p + y] == TomlKind::InlineTable);
    }
}

/// A single item is a well-formed tree.
pub proof fn lemma_leaf_well_formed(k: TomlKind)
    ensures
        well_formed_tree(leaf(k)),
{
    let l = leaf(k);
    assert forall|y: Seq<Seq<char>>, x: Seq<char>| !l.dom().contains(#[trigger] y.push(x)) by {
        assert(y.push(x).len() > 0);
    }
}

/// Putting a well-formed tree below a path of a well-formed tree gives a
/// well-formed tree, where the path's parent is there and no table comes
/// to stand in an inline table.
pub proof fn lemma_graft_well_formed(
    m: Map<Seq<Seq<char>>, TomlKind>,
    p: Seq<Seq<char>>,
    c: Map<Seq<Seq<char>>, TomlKind>,
)
    requires
        well_formed_tree(m),
        well_formed_tree(c),
        p.len() > 0,
        c.dom().contains(Seq::empty()) ==> m.dom().contains(p.drop_last()),
        kind_at(m, p.drop_last()) == Some(TomlKind::InlineTable) && c.dom().contains(Seq::empty())
            ==> c[Seq::empty()] != TomlKind::Table && c[Seq::empty()] != TomlKind::TableArray,
    ensures
        well_formed_tree(graft(m, p, c)),
{
    let g = graft(m, p, c);
    assert forall|y: Seq<Seq<char>>, k: Seq<char>|
        (p.is_prefix_of(y.push(k)) && !p.is_prefix_of(y)) implies #[trigger] y.push(k) == p by {
        if p.len() <= y.len() {
            assert(y.subrange(0, p.len() as int) =~= y.push(k).subrange(0, p.len() as int));
        }
        assert(y.push(k) =~= p);
    }
    assert forall|y: Seq<Seq<char>>, k: Seq<char>| p.is_prefix_of(y) implies #[trigger] p.is_prefix_of(y.push(k))
        && y.push(k).skip(p.len() as int) == y.skip(p.len() as int).push(k) by {
        assert(y.push(k).subrange(0, p.len() as int) =~= y.subrange(0, p.len() as int));
        assert(y.push(k).skip(p.len() as int) =~= y.skip(p.len() as int).push(k));
    }
    assert forall|y: Seq<Seq<char>>, k: Seq<char>| #[trigger] g.dom().contains(y.push(k)) implies g.dom().contains(y) by {
        if p.is_prefix_of(y.push(k)) && !p.is_prefix_of(y) {
            assert(y =~= p.drop_last());
            assert(y.push(k).skip(p.len() as int) =~= Seq::<Seq<char>>::empty());
        }
    }
    assert forall|y: Seq<Seq<char>>, k: Seq<char>|
        #![trigger g.dom().contains(y.push(k)), g[y]]
        g.dom().contains(y) && g[y] == TomlKind::InlineTable && g.dom().contains(y.push(k))
        implies g[y.push(k)] != TomlKind::Table && g[y.push(k)] != TomlKind::TableArray by {
        if p.is_prefix_of(y.push(k)) && !p.is_prefix_of(y) {
            assert(y =~= p.drop_last());
            assert(y.push(k).skip(p.len() as int) =~= Seq::<Seq<char>>::empty());
        } else if p.is_prefix_of(y) {
            let yy = y.skip(p.len() as int);
            assert(c.dom().contains(yy.push(k)) && c[yy] == TomlKind::InlineTable);
        } else {
            assert(m.dom().contains(y.push(k)) && m[y] == TomlKind::InlineTable);
        }
    }
}

/// Rewriting the entry of a section keeps a well-formed tree so, and keeps
/// the kind of the section.
pub proof fn lemma_entry_edit_well_formed(m: Map<Seq<Seq<char>>, TomlKind>, e: EditView)
    requires
        well_formed_tree(m),
    ensures
        well_formed_tree(section_entry_edit(m, e).0),
        kind_at(section_entry_edit(m, e).0, Seq::empty()) == kind_at(m, Seq::empty()),
{
    if is_table_like(kind_at(m, Seq::empty())) && m.dom().contains(seq![e.key]) {
        let t = subtree(m, seq![e.key]);
        lemma_subtree_well_formed(m, seq![e.key]);
        lemma_subtree_root(m, seq![e.key]);
        assert(Seq::<Seq<char>>::empty().push(e.key) =~= seq![e.key]);
        assert(seq![e.key].drop_last() =~= Seq::<Seq<char>>::empty());
        assert(seq!["version"@].drop_last() =~= Seq::<Seq<char>>::empty());
        match rewritten_entry(t, e) {
            Some(c) => {
                let s = entry_requirement(t).unwrap();
                let w = leaf(TomlKind::Str(written_text(e, s)));
                lemma_leaf_well_formed(TomlKind::Str(written_text(e, s)));
                if kind_at(t, Seq::empty()) != Some(TomlKind::Str(s)) {
                    lemma_graft_well_formed(t, seq!["version"@], w);
                }
                lemma_graft_well_formed(m, seq![e.key], c);
            },
            None => {},
        }
    }
}

/// Editing the entry of a section below an item keeps a well-formed tree
/// so, and keeps the kind of the item, but that `Item::None` may become an
/// inline table.
pub proof fn lemma_section_edit_well_formed(m: Map<Seq<Seq<char>>, TomlKind>, path: Seq<Seq<char>>, e: EditView)
    requires
        well_formed_tree(m),
    ensures
        well_formed_tree(section_edit(m, path, e).0),
        kind_at(section_edit(m, path, e).0, Seq::empty()) == kind_at(m, Seq::empty()) || (kind_at(m, Seq::empty()) is None
            && kind_at(section_edit(m, path, e).0, Seq::empty()) == Some(TomlKind::InlineTable)),
    decreases path.len(),
{
    if path.len() == 0 {
        lemma_entry_edit_well_formed(m, e);
    } else if is_table_like(kind_at(m, Seq::empty())) || kind_at(m, Seq::empty()) is None {
        let k = path[0];
        let sub = subtree(m, seq![k]);
        lemma_subtree_well_formed(m, seq![k]);
        lemma_subtree_root(m, seq![k]);
        lemma_section_edit_well_formed(sub, path.drop_first(), e);
        let c = section_edit(sub, path.drop_first(), e).0;
        assert(Seq::<Seq<char>>::empty().push(k) =~= seq![k]);
        assert(seq![k].drop_last() =~= Seq::<Seq<char>>::empty());
        if !m.dom().contains(Seq::empty()) {
            lemma_leaf_well_formed(TomlKind::InlineTable);
        }
        lemma_graft_well_formed(opened(m), seq![k], c);
    }
}

/// Editing a table of dependencies leaves the `target` table as it was.
proof fn lemma_main_keeps_targets(m: Map<Seq<Seq<char>>, TomlKind>, e: EditView)
    requires
        edits_targets(m, e),
        kind_at(m, Seq::empty()) == Some(TomlKind::Table),
    ensures
        forall|x: Seq<Seq<char>>|
            #![trigger section_edit(m, e.section, e).0.dom().contains(x)]
            x.len() > 0 && x[0] == "target"@ ==> (section_edit(m, e.section, e).0.dom().contains(x)
                == m.dom().contains(x) && (m.dom().contains(x) ==> section_edit(m, e.section, e).0[x] == m[x])),
{
    reveal_strlit("target");
    reveal_strlit("dependencies");
    reveal_strlit("dev-dependencies");
    reveal_strlit("build-dependencies");
    let dk = e.section[0];
    assert(dk != "target"@) by {
        assert(dk.len() != "target"@.len());
    }
    assert(e.section.drop_first() =~= Seq::<Seq<char>>::empty());
    let main = section_edit(m, e.section, e).0;
    assert forall|x: Seq<Seq<char>>| x.len() > 0 && x[0] == "target"@ implies !seq![dk].is_prefix_of(x) by {
        if seq![dk].is_prefix_of(x) {
            assert(x.subrange(0, 1)[0] == x[0]);
        }
    }
}

/// Editing a table of dependencies changes none of the targets' entries.
proof fn lemma_targets_unchanged(m: Map<Seq<Seq<char>>, TomlKind>, e: EditView)
    requires
        edits_targets(m, e),
        kind_at(m, Seq::empty()) == Some(TomlKind::Table),
    ensures
        forall|t: Seq<char>|
            #[trigger] target_has_entry(section_edit(m, e.section, e).0, e, t) == target_has_entry(m, e, t),
        kind_at(section_edit(m, e.section, e).0, seq!["target"@]) == Some(TomlKind::Table),
{
    let main = section_edit(m, e.section, e).0;
    lemma_main_keeps_targets(m, e);
    assert forall|t: Seq<char>| #[trigger] target_has_entry(main, e, t) == target_has_entry(m, e, t) by {
        assert(seq!["target"@, t][0] == "target"@);
        assert(seq!["target"@, t, e.section[0]][0] == "target"@);
        assert(target_entry_path(e, t)[0] == "target"@);
    }
    assert(seq!["target"@][0] == "target"@);
}

/// Once the entry is rewritten under the targets listed, the edit is done.
proof fn lemma_targets_done(m: Map<Seq<Seq<char>>, TomlKind>, e: EditView, names: Seq<Seq<char>>)
    requires
        kind_at(m, Seq::empty()) == Some(TomlKind::Table),
        forall|t: Seq<char>| #[trigger] names.contains(t) <==> (edits_targets(m, e) && target_has_entry(m, e, t)),
    ensures
        targets_edit_within(section_edit(m, e.section, e).0, e, names.to_set()) == manifest_edit_step(m, e),
{
    let main = section_edit(m, e.section, e).0;
    if edits_targets(m, e) {
        lemma_targets_unchanged(m, e);
        assert forall|t: Seq<char>| target_has_entry(main, e, t) implies #[trigger] names.to_set().contains(t) by {
            assert(names.contains(t));
        }
        lemma_targets_named(main, e, names.to_set());
    } else {
        assert(names.to_set() =~= Set::<Seq<char>>::empty()) by {
            if names.len() > 0 {
                assert(names.contains(names[0]));
            }
        }
        lemma_targets_none(main, e);
    }
}

/// The edit's entry is rewritten under every target that has it once it
/// is rewritten under those named.
proof fn lemma_targets_named(
    main: Map<Seq<Seq<char>>, TomlKind>,
    e: EditView,
    names: Set<Seq<char>>,
)
    requires
        forall|t: Seq<char>| target_has_entry(main, e, t) ==> #[trigger] names.contains(t),
    ensures
        targets_edit_within(main, e, names) == targets_edit_within(main, e, Set::full()),
{
    let a = targets_edit_within(main, e, names);
    let b = targets_edit_within(main, e, Set::full());
    assert forall|x: Seq<Seq<char>>| #![trigger a.dom().contains(x)] #![trigger b.dom().contains(x)]
        target_rewrite_at(main, e, names, x) == target_rewrite_at(main, e, Set::full(), x) by {}
    assert(a.dom() =~= b.dom());
    assert(a =~= b);
}

/// With no target named, nothing is rewritten under targets.
proof fn lemma_targets_none(main: Map<Seq<Seq<char>>, TomlKind>, e: EditView)
    ensures
        targets_edit_within(main, e, Set::empty()) == main,
{
    assert(targets_edit_within(main, e, Set::empty()) =~= main);
}

/// What lies at `p` after grafting `c` there is `c`.
pub proof fn lemma_subtree_graft(m: Map<Seq<Seq<char>>, TomlKind>, p: Seq<Seq<char>>, c: Map<Seq<Seq<char>>, TomlKind>)
    ensures
        subtree(graft(m, p, c), p) == c,
{
    let g = graft(m, p, c);
    assert forall|q: Seq<Seq<char>>| #![auto] p.is_prefix_of(p + q) && (p + q).skip(p.len() as int) == q by {
        assert((p + q).subrange(0, p.len() as int) =~= p);
        assert((p + q).skip(p.len() as int) =~= q);
    }
    assert(subtree(g, p) =~= c);
}

/// A rewritten entry holds the new requirement's text.
proof fn lemma_rewritten_entry_reads(t: Map<Seq<Seq<char>>, TomlKind>, e: EditView)
    requires
        entry_requirement(t) is Some,
        semver_parse_req(entry_requirement(t)->Some_0) == Some(e.old_req),
    ensures
        rewritten_entry(t, e) is Some,
        entry_requirement(rewritten_entry(t, e)->Some_0) == Some(written_text(e, entry_requirement(t)->Some_0)),
{
    let req = entry_requirement(t)->Some_0;
    let w = leaf(TomlKind::Str(written_text(e, req)));
    let c = rewritten_entry(t, e)->Some_0;
    if kind_at(t, Seq::empty()) != Some(TomlKind::Str(req)) {
        let ver = seq!["version"@];
        let ws = seq!["workspace"@];
        assert(c == graft(t, ver, w));
        lemma_subtree_graft(t, ver, w);
        assert(kind_at(c, ver) == Some(TomlKind::Str(written_text(e, req)))) by {
            assert(ver + Seq::<Seq<char>>::empty() =~= ver);
            assert(subtree(c, ver).dom().contains(Seq::<Seq<char>>::empty()));
        }
        assert(!ver.is_prefix_of(Seq::<Seq<char>>::empty()));
        assert(!ver.is_prefix_of(ws)) by {
            reveal_strlit("version");
            reveal_strlit("workspace");
            assert("workspace"@.len() != "version"@.len());
            if ver.is_prefix_of(ws) {
                assert(ws.subrange(0, 1)[0] == ver[0]);
            }
        }
        assert(kind_at(c, ws) == kind_at(t, ws));
        assert(kind_at(c, Seq::empty()) == kind_at(t, Seq::empty()));
    }
}

/// Rewriting the entry under the platform targets leaves what lies below a
/// path outside `target` as it was.
proof fn lemma_targets_keep_outside(main: Map<Seq<Seq<char>>, TomlKind>, e: EditView, p: Seq<Seq<char>>)
    requires
        p.len() > 0,
        p[0] != "target"@,
    ensures
        subtree(targets_edit_within(main, e, Set::full()), p) == subtree(main, p),
{
    let fin = targets_edit_within(main, e, Set::full());
    assert forall|q: Seq<Seq<char>>| #![auto] target_rewrite_at(main, e, Set::full(), p + q) is None by {
        assert((p + q)[0] == p[0]);
    }
    assert(subtree(fin, p) =~= subtree(main, p));
}

/// Where every key of the section's path is a table and the section has the
/// entry, editing the section puts the rewritten entry in its place.
proof fn lemma_section_entry_rewritten(m: Map<Seq<Seq<char>>, TomlKind>, e: EditView)
    requires
        forall|i: int| 0 <= i <= e.section.len() ==> #[trigger] is_table_like(kind_at(m, e.section.take(i))),
        m.dom().contains(e.section.push(e.key)),
        rewritten_entry(subtree(m, e.section.push(e.key)), e) is Some,
    ensures
        subtree(section_edit(m, e.section, e).0, e.section.push(e.key)) == rewritten_entry(
            subtree(m, e.section.push(e.key)),
            e,
        )->Some_0,
{
    let sec = e.section;
    let path = sec.push(e.key);
    let c = rewritten_entry(subtree(m, path), e)->Some_0;
    lemma_section_edit_present(m, sec, e);
    let sub = subtree(m, sec);
    assert(sec.take(sec.len() as int) =~= sec);
    lemma_subtree_root(m, sec);
    assert(sec + seq![e.key] =~= path);
    lemma_subtree_subtree(m, sec, seq![e.key]);
    assert(sub.dom().contains(seq![e.key])) by {
        assert(sec + seq![e.key] == path);
    }
    lemma_graft_graft(m, sec, seq![e.key], c);
    lemma_subtree_graft(m, path, c);
}

/// What a read gives back of an edit: where every key of the section's path
/// is a table and the section's entry, written as a string or as a table
/// with a `version` that does not say `workspace = true`, holds a
/// requirement that parses to the edit's old one, the entry holds the new
/// requirement's text afterwards, written as the edit writes it.
pub proof fn law_edit_writes_requirement(m: Map<Seq<Seq<char>>, TomlKind>, e: EditView)
    requires
        forall|i: int| 0 <= i <= e.section.len() ==> #[trigger] is_table_like(kind_at(m, e.section.take(i))),
        m.dom().contains(e.section.push(e.key)),
        entry_requirement(subtree(m, e.section.push(e.key))) is Some,
        semver_parse_req(entry_requirement(subtree(m, e.section.push(e.key)))->Some_0) == Some(e.old_req),
    ensures
        entry_requirement(subtree(manifest_edit_step(m, e), e.section.push(e.key))) == Some(
            written_text(e, entry_requirement(subtree(m, e.section.push(e.key)))->Some_0),
        ),
{
    let path = e.section.push(e.key);
    lemma_rewritten_entry_reads(subtree(m, path), e);
    lemma_section_entry_rewritten(m, e);
    if edits_targets(m, e) {
        assert(path[0] != "target"@) by {
            reveal_strlit("target");
            reveal_strlit("dependencies");
            reveal_strlit("dev-dependencies");
            reveal_strlit("build-dependencies");
            assert(path[0] == e.section[0]);
            assert("target"@.len() == 6);
            assert("dependencies"@.len() == 12);
            assert("dev-dependencies"@.len() == 16);
            assert("build-dependencies"@.len() == 18);
        }
        lemma_targets_keep_outside(section_edit(m, e.section, e).0, e, path);
    }
}

/// Editing below a path that is missing changes nothing and rewrites
/// nothing.
proof fn lemma_section_edit_missing(m: Map<Seq<Seq<char>>, TomlKind>, path: Seq<Seq<char>>, e: EditView)
    requires
        !m.dom().contains(path),
    ensures
        section_edit(m, path, e) == (m, false),
    decreases path.len(),
{
    if path.len() == 0 {
        assert(path =~= Seq::<Seq<char>>::empty());
    } else if is_table_like(kind_at(m, Seq::empty())) && m.dom().contains(seq![path[0]]) {
        let k = path[0];
        let rest = path.drop_first();
        assert(seq![k] + rest =~= path);
        assert(!subtree(m, seq![k]).dom().contains(rest));
        lemma_section_edit_missing(subtree(m, seq![k]), rest, e);
        lemma_graft_subtree(m, seq![k]);
    }
}

/// An edit of a section that the document does not have leaves the document
/// as it is, unless the section is a table of dependencies, whose entries
/// under the platform targets are still rewritten.
pub proof fn law_edit_of_missing_section(m: Map<Seq<Seq<char>>, TomlKind>, e: EditView)
    requires
        !m.dom().contains(e.section),
        !edits_targets(m, e),
    ensures
        manifest_edit_step(m, e) == m,
{
    lemma_section_edit_missing(m, e.section, e);
}

/// An edit changes nothing but the entries it rewrites: where every key of
/// its section's path is a table, whatever lies outside the edited entry of
/// the section and outside the same entry under the platform targets keeps
/// its kind.
pub proof fn law_edit_touches_only_entries(m: Map<Seq<Seq<char>>, TomlKind>, e: EditView, p: Seq<Seq<char>>)
    requires
        forall|i: int| 0 <= i <= e.section.len() ==> #[trigger] is_table_like(kind_at(m, e.section.take(i))),
        !e.section.push(e.key).is_prefix_of(p),
        !(p.len() >= 4 && p.take(4) == target_entry_path(e, p[1])),
    ensures
        kind_at(manifest_edit_step(m, e), p) == kind_at(m, p),
{
    let s = e.section;
    lemma_section_edit_present(m, s, e);
    let sub = subtree(m, s);
    assert(s.take(s.len() as int) =~= s);
    lemma_subtree_root(m, s);
    assert(s + seq![e.key] =~= s.push(e.key));
    let main = section_edit(m, s, e).0;
    if is_table_like(kind_at(sub, Seq::empty())) && sub.dom().contains(seq![e.key]) {
        match rewritten_entry(subtree(sub, seq![e.key]), e) {
            Some(c) => {
                lemma_graft_graft(m, s, seq![e.key], c);
            },
            None => {
                lemma_graft_subtree(m, s);
            },
        }
    } else {
        lemma_graft_subtree(m, s);
    }
    assert(kind_at(main, p) == kind_at(m, p));
    if edits_targets(m, e) {
        assert(target_rewrite_at(main, e, Set::full(), p) is None);
    }
}

/// An edit of `[dependencies]`, `[dev-dependencies]` or `[build-dependencies]`
/// reaches the platform targets: under every target whose table of that same
/// kind holds the entry with a requirement that parses to the edit's old one,
/// the entry holds the new requirement's text afterwards, whether or not the
/// document has the section itself.
pub proof fn law_edit_reaches_targets(m: Map<Seq<Seq<char>>, TomlKind>, e: EditView, t: Seq<char>)
    requires
        kind_at(m, Seq::empty()) == Some(TomlKind::Table),
        kind_at(m, seq!["target"@]) == Some(TomlKind::Table),
        e.section.len() == 1,
        e.section[0] == "dependencies"@ || e.section[0] == "dev-dependencies"@ || e.section[0]
            == "build-dependencies"@,
        target_has_entry(m, e, t),
        entry_requirement(subtree(m, target_entry_path(e, t))) is Some,
        semver_parse_req(entry_requirement(subtree(m, target_entry_path(e, t)))->Some_0) == Some(e.old_req),
    ensures
        entry_requirement(subtree(manifest_edit_step(m, e), target_entry_path(e, t))) == Some(
            written_text(e, entry_requirement(subtree(m, target_entry_path(e, t)))->Some_0),
        ),
{
    let tp = target_entry_path(e, t);
    assert(edits_targets(m, e));
    let main = section_edit(m, e.section, e).0;
    lemma_main_keeps_targets(m, e);
    lemma_targets_unchanged(m, e);
    assert(target_has_entry(main, e, t));
    assert forall|q: Seq<Seq<char>>| #![auto] (tp + q)[0] == "target"@ by {}
    assert(subtree(main, tp) =~= subtree(m, tp));
    lemma_rewritten_entry_reads(subtree(m, tp), e);
    let c = rewritten_entry(subtree(main, tp), e)->Some_0;
    let fin = targets_edit_within(main, e, Set::full());
    assert forall|q: Seq<Seq<char>>| #![auto] target_rewrite_at(main, e, Set::full(), tp + q) == Some(c)
        && (tp + q).skip(4) == q by {
        assert((tp + q).take(4) =~= tp);
        assert((tp + q).skip(4) =~= q);
        assert((tp + q)[1] == t);
    }
    assert(subtree(fin, tp) =~= c);
}

/// The text that replaces a requirement `current`.
fn written_version(edit: &ManifestEdit, current: &str) -> (r: String)
    ensures
        r@ == written_text(edit@, current@),
{
    let t = edit.new_req.to_string();
    let tc = chars_of(t.as_str());
    if edit.preserve_bare && tc.len() > 0 && tc[0] == '^' {
        let trimmed = trim_chars(&chars_of(current));
        if trimmed.len() > 0 && '0' <= trimmed[0] && trimmed[0] <= '9' {
            let mut rest: Vec<char> = Vec::new();
            let mut i: usize = 1;
            while i < tc.len()
                invariant
                    1 <= i <= tc@.len(),
                    rest@ == tc@.subrange(1, i as int),
                decreases tc@.len() - i,
            {
                rest.push(tc[i]);
                i = i + 1;
            }
            proof {
                assert(rest@ =~= tc@.drop_first());
            }
            return string_of(rest.as_slice());
        }
    }
    t
}

/// Rewrites the requirement of a dependency entry where it is the expected
/// one.
fn rewrite_entry(entry: &mut toml_edit::Item, edit: &ManifestEdit) -> (r: bool)
    ensures
        match rewritten_entry(toml_item_tree(*old(entry)), edit@) {
            Some(c) => r && toml_item_tree(*final(entry)) == c,
            None => !r && *final(entry) == *old(entry),
        },
{
    let kind = toml_kind(&*entry);
    let is_str = match &kind {
        ItemKind::Str(_) => true,
        _ => false,
    };
    let current: Option<String> = match kind {
        ItemKind::Str(s) => Some(s),
        ItemKind::Table | ItemKind::InlineTable => {
            let in_workspace = match toml_get(&*entry, "workspace") {
                Some(w) => match toml_kind(w) {
                    ItemKind::Bool(b) => b,
                    _ => false,
                },
                None => false,
            };
            if in_workspace {
                None
            } else {
                match toml_get(&*entry, "version") {
                    Some(v) => match toml_kind(v) {
                        ItemKind::Str(s) => Some(s),
                        _ => None,
                    },
                    None => None,
                }
            }
        },
        _ => None,
    };
    let current = match current {
        Some(s) => s,
        None => return false,
    };
    let matches_old = match SemReq::parse(current.as_str()) {
        Ok(q) => q.same_as(&edit.old_req),
        Err(_) => false,
    };
    if !matches_old {
        return false;
    }
    let text = written_version(edit, current.as_str());
    if is_str {
        toml_set_str(entry, text.as_str());
        true
    } else {
        match toml_child_mut(entry, "version") {
            Some(v) => {
                toml_set_str(v, text.as_str());
                true
            },
            None => false,
        }
    }
}

/// Edits the entry of a section item, if the item is a table that has it.
fn edit_section_entry(node: &mut toml_edit::Item, edit: &ManifestEdit) -> (r: bool)
    ensures
        (toml_item_tree(*final(node)), r) == section_entry_edit(toml_item_tree(*old(node)), edit@),
        !r ==> *final(node) == *old(node),
{
    let table_like = match toml_kind(&*node) {
        ItemKind::Table | ItemKind::InlineTable => true,
        _ => false,
    };
    if !table_like {
        return false;
    }
    if toml_get(&*node, edit.toml_key.as_str()).is_none() {
        return false;
    }
    let ghost m = toml_item_tree(*node);
    match toml_child_mut(node, edit.toml_key.as_str()) {
        Some(entry) => {
            let r = rewrite_entry(entry, edit);
            proof {
                lemma_graft_subtree(m, seq![edit@.key]);
            }
            r
        },
        None => false,
    }
}

/// Steps from `node` into the keys of `section` from `depth` on, and edits
/// the entry of the section reached.
fn edit_below(node: &mut toml_edit::Item, section: &Vec<String>, depth: usize, edit: &ManifestEdit) -> (r: bool)
    requires
        depth <= section@.len(),
    ensures
        (toml_item_tree(*final(node)), r) == section_edit(
            toml_item_tree(*old(node)),
            string_views(section@).skip(depth as int),
            edit@,
        ),
        !r ==> *final(node) == *old(node),
    decreases section@.len() - depth,
{
    let ghost path = string_views(section@).skip(depth as int);
    if depth == section.len() {
        proof {
            assert(path =~= Seq::<Seq<char>>::empty());
        }
        return edit_section_entry(node, edit);
    }
    proof {
        assert(path.drop_first() =~= string_views(section@).skip(depth + 1));
        assert(path[0] == section@[depth as int]@);
    }
    let table_like = match toml_kind(&*node) {
        ItemKind::Table | ItemKind::InlineTable => true,
        _ => false,
    };
    if !table_like || toml_get(&*node, section[depth].as_str()).is_none() {
        return false;
    }
    match toml_child_mut(node, section[depth].as_str()) {
        Some(child) => edit_below(child, section, depth + 1, edit),
        None => false,
    }
}

/// Whether `s` names a table of dependencies.
fn is_dependency_table(s: &str) -> (r: bool)
    ensures
        r == is_dependency_table_name(s@),
{
    str_eq(s, "dependencies") || str_eq(s, "dev-dependencies") || str_eq(s, "build-dependencies")
}

/// The platform targets under which the edit's entry stands: each once.
fn target_names(root: &toml_edit::Item, edit: &ManifestEdit) -> (r: Vec<String>)
    ensures
        string_views(r@).no_duplicates(),
        forall|t: Seq<char>|
            #![trigger string_views(r@).contains(t)]
            string_views(r@).contains(t) <==> (edits_targets(toml_item_tree(*root), edit@)
                && target_has_entry(toml_item_tree(*root), edit@, t)),
{
    let ghost m = toml_item_tree(*root);
    let ghost e = edit@;
    if edit.section.len() != 1 || !is_dependency_table(edit.section[0].as_str()) {
        return Vec::new();
    }
    let target = match toml_get(root, "target") {
        Some(t) => t,
        None => return Vec::new(),
    };
    proof {
        lemma_subtree_root(m, seq!["target"@]);
    }
    match toml_kind(target) {
        ItemKind::Table => {},
        _ => return Vec::new(),
    }
    let keys = toml_table_keys(target);
    let ghost keys_v = string_views(keys@);
    let dk = edit.section[0].as_str();
    let key = edit.toml_key.as_str();
    let mut names: Vec<String> = Vec::new();
    let mut i: usize = 0;
    while i < keys.len()
        invariant
            i <= keys@.len(),
            keys_v == string_views(keys@),
            keys_v.no_duplicates(),
            m == toml_item_tree(*root),
            e == edit@,
            e.section.len() == 1,
            dk@ == e.section[0],
            key@ == e.key,
            toml_item_tree(*target) == subtree(m, seq!["target"@]),
            string_views(names@).no_duplicates(),
            forall|t: Seq<char>|
                #![trigger string_views(names@).contains(t)]
                string_views(names@).contains(t) <==> (keys_v.take(i as int).contains(t)
                    && target_has_entry(m, e, t)),
        decreases keys@.len() - i,
    {
        let name = keys[i].as_str();
        let ghost t = keys_v[i as int];
        proof {
            lemma_subtree_subtree(m, seq!["target"@], seq![t]);
            assert(seq!["target"@] + seq![t] =~= seq!["target"@, t]);
            lemma_subtree_root(m, seq!["target"@, t]);
            lemma_subtree_subtree(m, seq!["target"@, t], seq![e.section[0]]);
            assert(seq!["target"@, t] + seq![e.section[0]] =~= seq!["target"@, t, e.section[0]]);
            lemma_subtree_root(m, seq!["target"@, t, e.section[0]]);
            assert(seq!["target"@, t, e.section[0]] + seq![e.key] =~= target_entry_path(e, t));
        }
        let has = match toml_get(target, name) {
            Some(t_item) => match toml_kind(t_item) {
                ItemKind::Table => match toml_get(t_item, dk) {
                    Some(d) => match toml_kind(d) {
                        ItemKind::Table => toml_get(d, key).is_some(),
                        _ => false,
                    },
                    None => false,
                },
                _ => false,
            },
            None => false,
        };
        assert(has == target_has_entry(m, e, t));
        let ghost before = string_views(names@);
        if has {
            names.push(keys[i].clone());
            proof {
                assert(string_views(names@) =~= before.push(t));
                assert(!before.contains(t)) by {
                    if before.contains(t) {
                        let j = choose|j: int| 0 <= j < i && #[trigger] keys_v.take(i as int)[j] == t;
                        assert(keys_v[j] == keys_v[i as int]);
                    }
                }
            }
        }
        proof {
            assert(keys_v.take(i + 1) =~= keys_v.take(i as int).push(t));
            assert forall|x: Seq<char>| #![trigger string_views(names@).contains(x)]
                string_views(names@).contains(x) <==> (keys_v.take(i + 1).contains(x)
                    && target_has_entry(m, e, x)) by {
                lemma_seq_contains_after_push(keys_v.take(i as int), t, x);
                if has {
                    lemma_seq_contains_after_push(before, t, x);
                }
            }
        }
        i = i + 1;
    }
    proof {
        assert(keys_v.take(keys@.len() as int) =~= keys_v);
        assert forall|x: Seq<char>| target_has_entry(m, e, x) implies #[trigger] keys_v.contains(x) by {
            assert(subtree(m, seq!["target"@]).dom().contains(seq![x])) by {
                assert(seq!["target"@] + seq![x] =~= seq!["target"@, x]);
            }
        }
    }
    names
}

/// Applies one edit to a document: to its section, and for a table of
/// dependencies also under each platform target that has the entry.
fn apply_edit(doc: &mut toml_edit::DocumentMut, edit: &ManifestEdit) -> (r: bool)
    requires
        writable_tree(toml_document_tree(*old(doc))),
    ensures
        toml_document_tree(*final(doc)) == manifest_edit_step(toml_document_tree(*old(doc)), edit@),
        writable_tree(toml_document_tree(*final(doc))),
        !r ==> *final(doc) == *old(doc),
{
    let ghost e = edit@;
    let root = toml_root_mut(doc);
    let ghost start = *root;
    let ghost m = toml_item_tree(*root);
    let names = target_names(&*root, edit);
    let ghost names_v = string_views(names@);
    proof {
        assert(string_views(edit.section@).skip(0) =~= e.section);
        lemma_section_edit_well_formed(m, e.section, e);
    }
    let mut changed = edit_below(root, &edit.section, 0, edit);
    let ghost main = toml_item_tree(*root);
    proof {
        if names@.len() > 0 {
            assert(names_v.contains(names_v[0]));
            lemma_targets_unchanged(m, e);
        }
        lemma_targets_none(main, e);
        assert(names_v.take(0).to_set() =~= Set::<Seq<char>>::empty());
    }
    let mut j: usize = 0;
    while j < names.len()
        invariant
            j <= names@.len(),
            e == edit@,
            names_v == string_views(names@),
            names_v.no_duplicates(),
            forall|t: Seq<char>| #[trigger] names_v.contains(t) <==> (edits_targets(m, e) && target_has_entry(m, e, t)),
            names@.len() > 0 ==> edits_targets(m, e),
            names@.len() > 0 ==> forall|t: Seq<char>| #[trigger] target_has_entry(main, e, t) == target_has_entry(m, e, t),
            names@.len() > 0 ==> kind_at(main, seq!["target"@]) == Some(TomlKind::Table),
            kind_at(main, Seq::empty()) == Some(TomlKind::Table),
            toml_item_tree(*root) == targets_edit_within(main, e, names_v.take(j as int).to_set()),
            well_formed_tree(toml_item_tree(*root)),
            kind_at(toml_item_tree(*root), Seq::empty()) == Some(TomlKind::Table),
            !changed ==> *root == start,
        decreases names@.len() - j,
    {
        let ghost t = names_v[j as int];
        let ghost cur = toml_item_tree(*root);
        let mut section: Vec<String> = Vec::new();
        section.push("target".to_owned());
        section.push(names[j].clone());
        section.push(edit.section[0].clone());
        let ghost path = seq!["target"@, t, e.section[0]];
        proof {
            assert(names_v.contains(t));
            assert(string_views(section@).skip(0) =~= path);
            assert(!names_v.take(j as int).to_set().contains(t)) by {
                if names_v.take(j as int).contains(t) {
                    let i = choose|i: int| 0 <= i < j && #[trigger] names_v.take(j as int)[i] == t;
                    assert(names_v[i] == names_v[j as int]);
                }
            }
            lemma_target_step(main, e, names_v.take(j as int).to_set(), t);
            lemma_section_edit_well_formed(cur, path, e);
            assert(names_v.take(j + 1) =~= names_v.take(j as int).push(t));
            names_v.take(j as int).lemma_push_to_set_commute(t);
        }
        if edit_below(root, &section, 0, edit) {
            changed = true;
        }
        j = j + 1;
    }
    proof {
        assert(names_v.take(names@.len() as int) =~= names_v);
        lemma_targets_done(m, e, names_v);
    }
    changed
}

/// The views of a list of edits.
pub open spec fn edit_views(edits: Seq<ManifestEdit>) -> Seq<EditView> {
    edits.map_values(|e: ManifestEdit| e@)
}

/// Applies a list of edits to the text of a manifest, in order, keeping its
/// layout and comments. Where no entry matches an edit, the edit changes
/// nothing.
pub fn edit_manifest(contents: &str, edits: &[ManifestEdit]) -> (r: Result<String, CargoError>)
    ensures
        r is Ok <==> toml_parsed(contents@) is Ok,
        r matches Ok(text) ==> toml_parsed(text@) is Ok && toml_parsed(text@)->Ok_0 == manifest_edits(
            toml_parsed(contents@)->Ok_0,
            edit_views(edits@),
        ),
        r matches Err(err) ==> (err matches CargoError::Metadata(msg) && msg@ == "failed to parse manifest: "@
            + toml_parsed(contents@)->Err_0),
{
    let mut doc = match toml_parse(contents) {
        Ok(d) => d,
        Err(msg) => {
            return Err(CargoError::Metadata(labelled(chars_of("failed to parse manifest: "), msg.as_str())));
        },
    };
    let ghost m0 = toml_document_tree(doc);
    let ghost views = edit_views(edits@);
    let mut i: usize = 0;
    while i < edits.len()
        invariant
            i <= edits@.len(),
            views == edit_views(edits@),
            toml_document_tree(doc) == manifest_edits(m0, views.take(i as int)),
            writable_tree(toml_document_tree(doc)),
        decreases edits@.len() - i,
    {
        let _ = apply_edit(&mut doc, &edits[i]);
        proof {
            assert(views.take(i + 1).drop_last() =~= views.take(i as int));
            assert(views.take(i + 1).last() == edits@[i as int]@);
        }
        i = i + 1;
    }
    proof {
        assert(views.take(edits@.len() as int) =~= views);
    }
    Ok(toml_render(&doc))
}

} // verus!
