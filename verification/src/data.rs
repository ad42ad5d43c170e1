//! Declaration tree assembler: walks a document, resolves every declaration
//! through the variable context, and produces a fully resolved tree of
//! colours and colour sets whose scopes are sorted by short identifier.
//!
//! Each node carries a qualified identifier: the concatenation of all
//! ancestor short identifiers with its own, with no separator. The root of
//! the walk is a synthetic scope named `Custom`, so generated code can group
//! all top-level declarations under one namespace.

use vstd::prelude::*;

use crate::ast;
use crate::ast::{
    spec_ruleset_item_view, spec_ruleset_items_view, Color, SpecDocumentItem, SpecRuleSetItem,
    SpecValue,
};
use crate::error::{Error, Slot};
use crate::var_context::{
    spec_budget, spec_resolve, spec_resolve_colorset, ResolvedVariable, SpecResolveOutcome,
    VarContext,
};

verus! {

broadcast use vstd::std_specs::vec::group_vec_axioms, vstd::seq::group_seq_axioms;

// ---------------------------------------------------------------------------
// Types
// ---------------------------------------------------------------------------

/// A node's name: its own short identifier, the fully qualified identifier
/// (ancestor short names concatenated, no separator), and the node's depth
/// under the synthetic root.
#[derive(PartialEq, Eq, Clone, Debug)]
pub struct Identifier {
    pub short: Vec<u8>,
    pub full: Vec<u8>,
    pub depth: usize,
}

/// Mathematical model of an [`Identifier`].
pub struct SpecIdentifier {
    pub short: Seq<u8>,
    pub full: Seq<u8>,
    pub depth: usize,
}

impl View for Identifier {
    type V = SpecIdentifier;

    open spec fn view(&self) -> SpecIdentifier {
        SpecIdentifier { short: self.short@, full: self.full@, depth: self.depth }
    }
}

/// A fully resolved pair of colours.
#[derive(Structural, PartialEq, Eq, Clone, Copy, Debug)]
pub struct ColorSet {
    pub light: Color,
    pub dark: Color,
}

/// The resolved value of a declaration.
#[derive(Structural, PartialEq, Eq, Clone, Copy, Debug)]
pub enum DeclarationValue {
    Color(Color),
    ColorSet(ColorSet),
}

/// A resolved declaration under its qualified identifier.
#[derive(PartialEq, Eq, Clone, Debug)]
pub struct Declaration {
    pub identifier: Identifier,
    pub value: DeclarationValue,
}

/// Mathematical model of a [`Declaration`].
pub struct SpecResolvedDeclaration {
    pub identifier: SpecIdentifier,
    pub value: DeclarationValue,
}

impl View for Declaration {
    type V = SpecResolvedDeclaration;

    open spec fn view(&self) -> SpecResolvedDeclaration {
        SpecResolvedDeclaration { identifier: self.identifier@, value: self.value }
    }
}

/// A resolved scope: its identifier and its resolved children, sorted by
/// short identifier.
#[derive(PartialEq, Eq, Debug)]
pub struct RuleSet {
    pub identifier: Identifier,
    pub items: Vec<RuleSetItem>,
}

/// An item of a resolved scope.
#[derive(PartialEq, Eq, Debug)]
pub enum RuleSetItem {
    Declaration(Declaration),
    RuleSet(RuleSet),
}

/// Mathematical model of a [`RuleSet`].
pub struct SpecResolvedRuleSet {
    pub identifier: SpecIdentifier,
    pub items: Seq<SpecResolvedItem>,
}

/// Mathematical model of a [`RuleSetItem`].
pub enum SpecResolvedItem {
    Declaration(SpecResolvedDeclaration),
    RuleSet(SpecResolvedRuleSet),
}

pub open spec fn spec_resolved_ruleset_view(r: RuleSet) -> SpecResolvedRuleSet
    decreases r,
{
    SpecResolvedRuleSet { identifier: r.identifier@, items: spec_resolved_items_view(r.items@) }
}

/// Model of a sequence of resolved items.
pub open spec fn spec_resolved_items_view(v: Seq<RuleSetItem>) -> Seq<SpecResolvedItem>
    decreases v,
{
    Seq::new(
        v.len(),
        |i: int|
            if 0 <= i < v.len() {
                spec_resolved_item_view(v[i])
            } else {
                arbitrary()
            },
    )
}

pub open spec fn spec_resolved_item_view(it: RuleSetItem) -> SpecResolvedItem
    decreases it,
{
    match it {
        RuleSetItem::Declaration(d) => SpecResolvedItem::Declaration(d@),
        RuleSetItem::RuleSet(r) => SpecResolvedItem::RuleSet(spec_resolved_ruleset_view(r)),
    }
}

impl View for RuleSet {
    type V = SpecResolvedRuleSet;

    open spec fn view(&self) -> SpecResolvedRuleSet {
        spec_resolved_ruleset_view(*self)
    }
}

impl View for RuleSetItem {
    type V = SpecResolvedItem;

    open spec fn view(&self) -> SpecResolvedItem {
        spec_resolved_item_view(*self)
    }
}

// ---------------------------------------------------------------------------
// Identifiers
// ---------------------------------------------------------------------------

/// The synthetic root identifier: short name `Custom`, empty qualified
/// name, depth one.
pub open spec fn spec_root_identifier() -> SpecIdentifier {
    SpecIdentifier { short: seq![67u8, 117u8, 115u8, 116u8, 111u8, 109u8], full: Seq::empty(), depth: 1 }
}

/// Extends a parent identifier with a child's short name: the child's
/// qualified name is the parent's with the short name appended, one level
/// deeper.
pub open spec fn spec_appending(parent: SpecIdentifier, short: Seq<u8>) -> SpecIdentifier {
    SpecIdentifier {
        short: short,
        full: parent.full + short,
        depth: if parent.depth < usize::MAX {
            (parent.depth + 1) as usize
        } else {
            usize::MAX
        },
    }
}

impl Identifier {
    /// The synthetic root identifier.
    pub fn new() -> (r: Identifier)
        ensures
            r@ == spec_root_identifier(),
    {
        let mut short: Vec<u8> = Vec::new();
        short.push(67u8);
        short.push(117u8);
        short.push(115u8);
        short.push(116u8);
        short.push(111u8);
        short.push(109u8);
        proof {
            assert(short@ =~= spec_root_identifier().short);
        }
        Identifier { short, full: Vec::new(), depth: 1 }
    }

    /// Extends this identifier with a child's short name.
    pub fn appending(&self, identifier: &Vec<u8>) -> (r: Identifier)
        ensures
            r@ == spec_appending(self@, identifier@),
    {
        let mut full: Vec<u8> = Vec::new();
        let mut m: usize = 0;
        while m < self.full.len()
            invariant
                m <= self.full@.len(),
                full@ == self.full@.subrange(0, m as int),
            decreases self.full@.len() - m,
        {
            full.push(self.full[m]);
            proof {
                assert(full@ =~= self.full@.subrange(0, m + 1));
            }
            m = m + 1;
        }
        let mut q: usize = 0;
        proof {
            assert(self.full@.subrange(0, self.full@.len() as int) =~= self.full@);
        }
        while q < identifier.len()
            invariant
                q <= identifier@.len(),
                full@ == self.full@ + identifier@.subrange(0, q as int),
            decreases identifier@.len() - q,
        {
            full.push(identifier[q]);
            proof {
                assert(full@ =~= self.full@ + identifier@.subrange(0, q + 1));
            }
            q = q + 1;
        }
        let mut short: Vec<u8> = Vec::new();
        let mut w: usize = 0;
        while w < identifier.len()
            invariant
                w <= identifier@.len(),
                short@ == identifier@.subrange(0, w as int),
            decreases identifier@.len() - w,
        {
            short.push(identifier[w]);
            proof {
                assert(short@ =~= identifier@.subrange(0, w + 1));
            }
            w = w + 1;
        }
        let depth: usize = if self.depth < usize::MAX {
            self.depth + 1
        } else {
            usize::MAX
        };
        proof {
            assert(identifier@.subrange(0, identifier@.len() as int) =~= identifier@);
        }
        Identifier { short, full, depth }
    }
}

// ---------------------------------------------------------------------------
// Ordering and sorting
// ---------------------------------------------------------------------------

/// Byte-wise lexicographic order from position `i` on.
pub open spec fn spec_lex_le_from(a: Seq<u8>, b: Seq<u8>, i: int) -> bool
    decreases a.len() - i,
{
    if i >= a.len() {
        true
    } else if i >= b.len() {
        false
    } else if a[i] < b[i] {
        true
    } else if a[i] > b[i] {
        false
    } else {
        spec_lex_le_from(a, b, i + 1)
    }
}

/// Byte-wise lexicographic order on byte strings.
pub open spec fn spec_lex_le(a: Seq<u8>, b: Seq<u8>) -> bool {
    spec_lex_le_from(a, b, 0)
}

/// The short identifier a resolved item is sorted by.
pub open spec fn spec_short_of(it: SpecResolvedItem) -> Seq<u8> {
    match it {
        SpecResolvedItem::Declaration(d) => d.identifier.short,
        SpecResolvedItem::RuleSet(r) => r.identifier.short,
    }
}

/// Inserts `x` into a sequence, after every element whose key is not above
/// `x`'s: a stable insertion.
pub open spec fn spec_insert_sorted(
    s: Seq<SpecResolvedItem>,
    x: SpecResolvedItem,
) -> Seq<SpecResolvedItem>
    decreases s.len(),
{
    if s.len() == 0 {
        seq![x]
    } else if spec_lex_le(spec_short_of(s.last()), spec_short_of(x)) {
        s.push(x)
    } else {
        spec_insert_sorted(s.drop_last(), x).push(s.last())
    }
}

/// Stable insertion sort by short identifier.
pub open spec fn spec_sort_items(s: Seq<SpecResolvedItem>) -> Seq<SpecResolvedItem>
    decreases s.len(),
{
    if s.len() == 0 {
        Seq::empty()
    } else {
        spec_insert_sorted(spec_sort_items(s.drop_last()), s.last())
    }
}

/// Whether a sequence of resolved items is sorted by short identifier.
pub open spec fn spec_items_sorted(s: Seq<SpecResolvedItem>) -> bool {
    forall|i: int, j: int|
        0 <= i < j < s.len() ==> spec_lex_le(
            spec_short_of(#[trigger] s[i]),
            spec_short_of(#[trigger] s[j]),
        )
}

// ---------------------------------------------------------------------------
// Assembly
// ---------------------------------------------------------------------------

/// Specification-level outcome of assembling: a resolved result, or the
/// resolution error that aborted the walk.
pub enum SpecAssemble<T> {
    Built(T),
    Unknown(Seq<u8>),
    Mismatch(Slot, Seq<u8>),
    Cycle(Seq<u8>),
}

/// Maps a resolution outcome that must be a single colour or colour set
/// into an assembly outcome for a declaration.
pub open spec fn spec_assemble_value(
    id: SpecIdentifier,
    o: SpecResolveOutcome,
) -> SpecAssemble<SpecResolvedItem> {
    match o {
        SpecResolveOutcome::Resolved(ResolvedVariable::Color(c)) => SpecAssemble::Built(
            SpecResolvedItem::Declaration(
                SpecResolvedDeclaration { identifier: id, value: DeclarationValue::Color(c) },
            ),
        ),
        SpecResolveOutcome::Resolved(ResolvedVariable::ColorSet(rcs)) => SpecAssemble::Built(
            SpecResolvedItem::Declaration(
                SpecResolvedDeclaration {
                    identifier: id,
                    value: DeclarationValue::ColorSet(
                        ColorSet { light: rcs.light, dark: rcs.dark },
                    ),
                },
            ),
        ),
        SpecResolveOutcome::Unknown(x) => SpecAssemble::Unknown(x),
        SpecResolveOutcome::Mismatch(slot, x) => SpecAssemble::Mismatch(slot, x),
        SpecResolveOutcome::Cycle(x) => SpecAssemble::Cycle(x),
    }
}

/// Assembles one declaration: a literal colour stands as it is, a colour
/// set and a variable reference are resolved through the context.
pub open spec fn spec_assemble_declaration(
    m: Seq<(Seq<u8>, SpecValue)>,
    parent: SpecIdentifier,
    d: crate::ast::SpecDeclaration<SpecValue>,
) -> SpecAssemble<SpecResolvedItem> {
    let id = spec_appending(parent, d.identifier);
    match d.value {
        SpecValue::Color(c) => SpecAssemble::Built(
            SpecResolvedItem::Declaration(
                SpecResolvedDeclaration { identifier: id, value: DeclarationValue::Color(c) },
            ),
        ),
        SpecValue::ColorSet(cs) => spec_assemble_value(
            id,
            spec_resolve_colorset(m, cs, spec_budget(m)),
        ),
        SpecValue::Variable(v) => spec_assemble_value(
            id,
            spec_resolve(m, v.identifier, v.opacity, spec_budget(m)),
        ),
    }
}

/// Assembles one rule set body item.
pub open spec fn spec_assemble_item(
    m: Seq<(Seq<u8>, SpecValue)>,
    parent: SpecIdentifier,
    it: SpecRuleSetItem,
) -> SpecAssemble<SpecResolvedItem>
    decreases it, 0int,
{
    match it {
        SpecRuleSetItem::Declaration(d) => spec_assemble_declaration(m, parent, d),
        SpecRuleSetItem::RuleSet(r) => match spec_assemble_ruleset(
            m,
            spec_appending(parent, r.identifier),
            r.items,
        ) {
            SpecAssemble::Built(rs) => SpecAssemble::Built(SpecResolvedItem::RuleSet(rs)),
            SpecAssemble::Unknown(x) => SpecAssemble::Unknown(x),
            SpecAssemble::Mismatch(slot, x) => SpecAssemble::Mismatch(slot, x),
            SpecAssemble::Cycle(x) => SpecAssemble::Cycle(x),
        },
    }
}

/// Assembles the items of one scope, in source order; the first failure
/// aborts the walk.
pub open spec fn spec_assemble_items(
    m: Seq<(Seq<u8>, SpecValue)>,
    parent: SpecIdentifier,
    items: Seq<SpecRuleSetItem>,
) -> SpecAssemble<Seq<SpecResolvedItem>>
    decreases items, 0int,
{
    if items.len() == 0 {
        SpecAssemble::Built(Seq::empty())
    } else {
        match spec_assemble_item(m, parent, items.first()) {
            SpecAssemble::Built(x) => spec_cat_assembled(
                seq![x],
                spec_assemble_items(m, parent, items.drop_first()),
            ),
            SpecAssemble::Unknown(y) => SpecAssemble::Unknown(y),
            SpecAssemble::Mismatch(slot, y) => SpecAssemble::Mismatch(slot, y),
            SpecAssemble::Cycle(y) => SpecAssemble::Cycle(y),
        }
    }
}

/// Assembles one scope: its items resolved in source order, then sorted by
/// short identifier.
pub open spec fn spec_assemble_ruleset(
    m: Seq<(Seq<u8>, SpecValue)>,
    identifier: SpecIdentifier,
    items: Seq<SpecRuleSetItem>,
) -> SpecAssemble<SpecResolvedRuleSet>
    decreases items, 1int,
{
    match spec_assemble_items(m, identifier, items) {
        SpecAssemble::Built(resolved) => SpecAssemble::Built(
            SpecResolvedRuleSet { identifier, items: spec_sort_items(resolved) },
        ),
        SpecAssemble::Unknown(y) => SpecAssemble::Unknown(y),
        SpecAssemble::Mismatch(slot, y) => SpecAssemble::Mismatch(slot, y),
        SpecAssemble::Cycle(y) => SpecAssemble::Cycle(y),
    }
}

/// Assembles the top level of a document under the synthetic root:
/// variable declarations are skipped, everything else is resolved.
pub open spec fn spec_assemble_document_items(
    m: Seq<(Seq<u8>, SpecValue)>,
    items: Seq<SpecDocumentItem>,
) -> SpecAssemble<Seq<SpecResolvedItem>>
    decreases items.len(),
{
    if items.len() == 0 {
        SpecAssemble::Built(Seq::empty())
    } else {
        match items.first() {
            SpecDocumentItem::Variable(_) => spec_assemble_document_items(m, items.drop_first()),
            SpecDocumentItem::Declaration(d) => match spec_assemble_declaration(
                m,
                spec_root_identifier(),
                d,
            ) {
                SpecAssemble::Built(x) => spec_cat_assembled(
                    seq![x],
                    spec_assemble_document_items(m, items.drop_first()),
                ),
                SpecAssemble::Unknown(y) => SpecAssemble::Unknown(y),
                SpecAssemble::Mismatch(slot, y) => SpecAssemble::Mismatch(slot, y),
                SpecAssemble::Cycle(y) => SpecAssemble::Cycle(y),
            },
            SpecDocumentItem::RuleSet(r) => match spec_assemble_ruleset(
                m,
                spec_appending(spec_root_identifier(), r.identifier),
                r.items,
            ) {
                SpecAssemble::Built(rs) => spec_cat_assembled(
                    seq![SpecResolvedItem::RuleSet(rs)],
                    spec_assemble_document_items(m, items.drop_first()),
                ),
                SpecAssemble::Unknown(y) => SpecAssemble::Unknown(y),
                SpecAssemble::Mismatch(slot, y) => SpecAssemble::Mismatch(slot, y),
                SpecAssemble::Cycle(y) => SpecAssemble::Cycle(y),
            },
        }
    }
}

/// Assembles a whole document into the resolved, sorted tree under the
/// synthetic root scope.
pub open spec fn spec_assemble_document(items: Seq<SpecDocumentItem>) -> SpecAssemble<
    SpecResolvedRuleSet,
> {
    let m = crate::var_context::spec_derive(items);
    match spec_assemble_document_items(m, items) {
        SpecAssemble::Built(resolved) => SpecAssemble::Built(
            SpecResolvedRuleSet {
                identifier: spec_root_identifier(),
                items: spec_sort_items(resolved),
            },
        ),
        SpecAssemble::Unknown(y) => SpecAssemble::Unknown(y),
        SpecAssemble::Mismatch(slot, y) => SpecAssemble::Mismatch(slot, y),
        SpecAssemble::Cycle(y) => SpecAssemble::Cycle(y),
    }
}

// ---------------------------------------------------------------------------
// Executable ordering and sorting
// ---------------------------------------------------------------------------

/// Byte-wise lexicographic comparison.
fn lex_le(a: &Vec<u8>, b: &Vec<u8>) -> (r: bool)
    ensures
        r == spec_lex_le(a@, b@),
{
    let mut m: usize = 0;
    while m < a.len() && m < b.len() && a[m] == b[m]
        invariant
            m <= a@.len(),
            m <= b@.len(),
            spec_lex_le_from(a@, b@, 0) == spec_lex_le_from(a@, b@, m as int),
        decreases a@.len() - m,
    {
        m = m + 1;
    }
    if m >= a.len() {
        true
    } else if m >= b.len() {
        false
    } else {
        a[m] < b[m]
    }
}

/// The short identifier an item is sorted by.
fn short_of_item(it: &RuleSetItem) -> (r: &Vec<u8>)
    ensures
        r@ == spec_short_of(it@),
{
    match it {
        RuleSetItem::Declaration(d) => &d.identifier.short,
        RuleSetItem::RuleSet(r) => &r.identifier.short,
    }
}

/// A stable insertion is a split: `x` goes right after the last element
/// whose key is not above `x`'s.
proof fn lemma_insert_split(s: Seq<SpecResolvedItem>, x: SpecResolvedItem, p: int)
    requires
        0 <= p <= s.len(),
        forall|q: int|
            p <= q < s.len() ==> !spec_lex_le(spec_short_of(#[trigger] s[q]), spec_short_of(x)),
        p > 0 ==> spec_lex_le(spec_short_of(s[p - 1]), spec_short_of(x)),
    ensures
        spec_insert_sorted(s, x) == s.subrange(0, p) + seq![x] + s.subrange(p, s.len() as int),
    decreases s.len(),
{
    if s.len() == 0 {
        assert(spec_insert_sorted(s, x) =~= s.subrange(0, p) + seq![x] + s.subrange(
            p,
            s.len() as int,
        ));
    } else if spec_lex_le(spec_short_of(s.last()), spec_short_of(x)) {
        assert(p == s.len());
        assert(s.push(x) =~= s.subrange(0, p) + seq![x] + s.subrange(p, s.len() as int));
    } else {
        assert(p <= s.len() - 1);
        let s0 = s.drop_last();
        assert(forall|q: int|
            p <= q < s0.len() ==> !spec_lex_le(
                spec_short_of(#[trigger] s0[q]),
                spec_short_of(x),
            ));
        if p > 0 {
            assert(s0[p - 1] == s[p - 1]);
        }
        lemma_insert_split(s0, x, p);
        assert((s0.subrange(0, p) + seq![x] + s0.subrange(p, s0.len() as int)).push(s.last())
            =~= s.subrange(0, p) + seq![x] + s.subrange(p, s.len() as int));
    }
}

/// Inserts one resolved item into an already sorted vector, keeping equal
/// keys in their existing order.
fn insert_item(out: &mut Vec<RuleSetItem>, x: RuleSetItem)
    ensures
        spec_resolved_items_view(final(out)@) == spec_insert_sorted(
            spec_resolved_items_view(old(out)@),
            spec_resolved_item_view(x),
        ),
{
    let ghost s = spec_resolved_items_view(out@);
    let mut p: usize = out.len();
    loop
        invariant
            p <= out@.len(),
            s == spec_resolved_items_view(out@),
            forall|q: int|
                p <= q < s.len() ==> !spec_lex_le(
                    spec_short_of(#[trigger] s[q]),
                    spec_short_of(spec_resolved_item_view(x)),
                ),
        ensures
            p <= out@.len(),
            forall|q: int|
                p <= q < s.len() ==> !spec_lex_le(
                    spec_short_of(#[trigger] s[q]),
                    spec_short_of(spec_resolved_item_view(x)),
                ),
            p > 0 ==> spec_lex_le(
                spec_short_of(s[p - 1]),
                spec_short_of(spec_resolved_item_view(x)),
            ),
        decreases p,
    {
        if p == 0 {
            break;
        }
        let keeps = lex_le(short_of_item(&out[p - 1]), short_of_item(&x));
        if keeps {
            break;
        }
        p = p - 1;
    }
    proof {
        lemma_insert_split(s, spec_resolved_item_view(x), p as int);
    }
    let ghost xm = spec_resolved_item_view(x);
    out.insert(p, x);
    proof {
        assert(spec_resolved_items_view(out@) =~= s.subrange(0, p as int) + seq![xm] + s.subrange(
            p as int,
            s.len() as int,
        ));
    }
}

/// Sorts resolved items by short identifier with a stable insertion sort.
fn sort_items(items: Vec<RuleSetItem>) -> (r: Vec<RuleSetItem>)
    ensures
        spec_resolved_items_view(r@) == spec_sort_items(spec_resolved_items_view(items@)),
{
    let ghost orig = spec_resolved_items_view(items@);
    let mut rest = items;
    let mut out: Vec<RuleSetItem> = Vec::new();
    proof {
        assert(orig.subrange(0, orig.len() as int) =~= orig);
        assert(spec_resolved_items_view(rest@).subrange(0, 0) =~= Seq::<SpecResolvedItem>::empty());
        assert(spec_sort_items(Seq::<SpecResolvedItem>::empty()) =~= Seq::<
            SpecResolvedItem,
        >::empty());
        assert(spec_resolved_items_view(out@) =~= Seq::<SpecResolvedItem>::empty());
    }
    while rest.len() > 0
        invariant
            rest@.len() <= orig.len(),
            ({
                let k = orig.len() - rest@.len();
                spec_resolved_items_view(rest@) =~= orig.subrange(k as int, orig.len() as int)
                    && spec_resolved_items_view(out@) == spec_sort_items(
                    orig.subrange(0, k as int),
                )
            }),
        decreases rest@.len(),
    {
        let ghost k = orig.len() - rest@.len();
        let ghost before = rest@;
        let x = rest.remove(0);
        proof {
            assert(rest@ =~= before.drop_first());
            assert forall|q: int| 0 <= q < rest@.len() implies spec_resolved_items_view(rest@)[q]
                == orig.subrange(k as int + 1, orig.len() as int)[q] by {
                assert(rest@[q] == before[q + 1]);
                assert(spec_resolved_items_view(before)[q + 1] == orig.subrange(
                    k as int,
                    orig.len() as int,
                )[q + 1]);
            }
            assert(spec_resolved_items_view(rest@) =~= orig.subrange(
                k as int + 1,
                orig.len() as int,
            ));
            assert(x == before[0]);
            assert(spec_resolved_items_view(before)[0] == orig.subrange(
                k as int,
                orig.len() as int,
            )[0]);
            assert(spec_resolved_item_view(x) == orig[k as int]);
            assert(orig.subrange(0, k as int + 1).drop_last() =~= orig.subrange(0, k as int));
            assert(orig.subrange(0, k as int + 1).last() == orig[k as int]);
        }
        insert_item(&mut out, x);
    }
    proof {
        assert(orig.subrange(0, orig.len() as int) =~= orig);
    }
    out
}

// ---------------------------------------------------------------------------
// Executable assembly
// ---------------------------------------------------------------------------

/// Appends already assembled items in front of an assembly outcome.
pub open spec fn spec_cat_assembled(
    acc: Seq<SpecResolvedItem>,
    o: SpecAssemble<Seq<SpecResolvedItem>>,
) -> SpecAssemble<Seq<SpecResolvedItem>> {
    match o {
        SpecAssemble::Built(rest) => SpecAssemble::Built(acc + rest),
        SpecAssemble::Unknown(y) => SpecAssemble::Unknown(y),
        SpecAssemble::Mismatch(slot, y) => SpecAssemble::Mismatch(slot, y),
        SpecAssemble::Cycle(y) => SpecAssemble::Cycle(y),
    }
}

proof fn lemma_cat_assembled_push(
    acc: Seq<SpecResolvedItem>,
    x: SpecResolvedItem,
    o: SpecAssemble<Seq<SpecResolvedItem>>,
)
    ensures
        spec_cat_assembled(acc, spec_cat_assembled(seq![x], o)) == spec_cat_assembled(
            acc.push(x),
            o,
        ),
{
    match o {
        SpecAssemble::Built(rest) => {
            assert(acc + (seq![x] + rest) =~= acc.push(x) + rest);
        },
        _ => {},
    }
}

/// Resolves one declaration under its parent scope's identifier.
fn assemble_declaration(ctx: &VarContext, parent: &Identifier, d: &ast::Declaration<
    crate::ast::Value,
>) -> (r: Result<Declaration, Error>)
    ensures
        match r {
            Ok(dd) => spec_assemble_declaration(ctx@, parent@, d@) == SpecAssemble::Built(
                SpecResolvedItem::Declaration(dd@),
            ),
            Err(e) => match e {
                Error::UnknownIdentifier { identifier } => spec_assemble_declaration(
                    ctx@,
                    parent@,
                    d@,
                ) == SpecAssemble::<SpecResolvedItem>::Unknown(identifier@),
                Error::TypeMismatch { slot, identifier } => spec_assemble_declaration(
                    ctx@,
                    parent@,
                    d@,
                ) == SpecAssemble::<SpecResolvedItem>::Mismatch(slot, identifier@),
                Error::CyclicReference { identifier } => spec_assemble_declaration(
                    ctx@,
                    parent@,
                    d@,
                ) == SpecAssemble::<SpecResolvedItem>::Cycle(identifier@),
                _ => false,
            },
        },
{
    let id = parent.appending(&d.identifier);
    match &d.value {
        crate::ast::Value::Color(c) => Ok(
            Declaration { identifier: id, value: DeclarationValue::Color(*c) },
        ),
        crate::ast::Value::ColorSet(cs) => match ctx.resolve_colorset(cs) {
            Ok(rcs) => Ok(
                Declaration {
                    identifier: id,
                    value: DeclarationValue::ColorSet(
                        ColorSet { light: rcs.light, dark: rcs.dark },
                    ),
                },
            ),
            Err(e) => Err(e),
        },
        crate::ast::Value::Variable(v) => match ctx.resolve(v) {
            Ok(ResolvedVariable::Color(c)) => Ok(
                Declaration { identifier: id, value: DeclarationValue::Color(c) },
            ),
            Ok(ResolvedVariable::ColorSet(rcs)) => Ok(
                Declaration {
                    identifier: id,
                    value: DeclarationValue::ColorSet(
                        ColorSet { light: rcs.light, dark: rcs.dark },
                    ),
                },
            ),
            Err(e) => Err(e),
        },
    }
}

impl RuleSet {
    /// Assembles one scope: resolves its items in source order through the
    /// context, then sorts them by short identifier. The first resolution
    /// failure aborts the whole walk.
    pub fn new(identifier: Identifier, items: &[ast::RuleSetItem], ctx: &VarContext) -> (r: Result<
        RuleSet,
        Error,
    >)
        ensures
            match r {
                Ok(rs) => spec_assemble_ruleset(
                    ctx@,
                    identifier@,
                    spec_ruleset_items_view(items@),
                ) == SpecAssemble::Built(rs@),
                Err(e) => match e {
                    Error::UnknownIdentifier { identifier: x } => spec_assemble_ruleset(
                        ctx@,
                        identifier@,
                        spec_ruleset_items_view(items@),
                    ) == SpecAssemble::<SpecResolvedRuleSet>::Unknown(x@),
                    Error::TypeMismatch { slot, identifier: x } => spec_assemble_ruleset(
                        ctx@,
                        identifier@,
                        spec_ruleset_items_view(items@),
                    ) == SpecAssemble::<SpecResolvedRuleSet>::Mismatch(slot, x@),
                    Error::CyclicReference { identifier: x } => spec_assemble_ruleset(
                        ctx@,
                        identifier@,
                        spec_ruleset_items_view(items@),
                    ) == SpecAssemble::<SpecResolvedRuleSet>::Cycle(x@),
                    _ => false,
                },
            },
        decreases items@, 1int,
    {
        let ghost itemsv = spec_ruleset_items_view(items@);
        let mut resolved: Vec<RuleSetItem> = Vec::new();
        let mut m: usize = 0;
        proof {
            assert(itemsv.skip(0) =~= itemsv);
            assert(spec_resolved_items_view(resolved@) =~= Seq::<SpecResolvedItem>::empty());
        }
        while m < items.len()
            invariant
                m <= items@.len(),
                itemsv == spec_ruleset_items_view(items@),
                spec_assemble_items(ctx@, identifier@, itemsv) == spec_cat_assembled(
                    spec_resolved_items_view(resolved@),
                    spec_assemble_items(ctx@, identifier@, itemsv.skip(m as int)),
                ),
            decreases items@.len() - m,
        {
            let ghost acc = spec_resolved_items_view(resolved@);
            proof {
                assert(itemsv.skip(m as int).first() == itemsv[m as int]);
                assert(itemsv.skip(m as int).drop_first() =~= itemsv.skip(m as int + 1));
                assert(itemsv[m as int] == spec_ruleset_item_view(items@[m as int]));
            }
            match &items[m] {
                ast::RuleSetItem::Declaration(d) => {
                    proof {
                        assert(spec_assemble_item(ctx@, identifier@, itemsv[m as int])
                            == spec_assemble_declaration(ctx@, identifier@, d@));
                    }
                    match assemble_declaration(ctx, &identifier, d) {
                        Ok(dd) => {
                            proof {
                                lemma_cat_assembled_push(
                                    acc,
                                    SpecResolvedItem::Declaration(dd@),
                                    spec_assemble_items(
                                        ctx@,
                                        identifier@,
                                        itemsv.skip(m as int + 1),
                                    ),
                                );
                            }
                            resolved.push(RuleSetItem::Declaration(dd));
                            proof {
                                assert(spec_resolved_items_view(resolved@) =~= acc.push(
                                    SpecResolvedItem::Declaration(dd@),
                                ));
                            }
                        },
                        Err(e) => {
                            return Err(e);
                        },
                    }
                },
                ast::RuleSetItem::RuleSet(rr) => {
                    proof {
                        assert(itemsv[m as int] == SpecRuleSetItem::RuleSet(
                            crate::ast::spec_ruleset_view(*rr),
                        ));
                        assert(crate::ast::spec_ruleset_view(*rr).items
                            == spec_ruleset_items_view(rr.items@));
                    }
                    match RuleSet::new(
                        identifier.appending(&rr.identifier),
                        rr.items.as_slice(),
                        ctx,
                    ) {
                        Ok(rs) => {
                            let ghost rsv = rs@;
                            proof {
                                lemma_cat_assembled_push(
                                    acc,
                                    SpecResolvedItem::RuleSet(rsv),
                                    spec_assemble_items(
                                        ctx@,
                                        identifier@,
                                        itemsv.skip(m as int + 1),
                                    ),
                                );
                            }
                            resolved.push(RuleSetItem::RuleSet(rs));
                            proof {
                                assert(spec_resolved_items_view(resolved@) =~= acc.push(
                                    SpecResolvedItem::RuleSet(rsv),
                                ));
                            }
                        },
                        Err(e) => {
                            return Err(e);
                        },
                    }
                },
            }
            m = m + 1;
        }
        proof {
            assert(itemsv.skip(itemsv.len() as int) =~= Seq::<SpecRuleSetItem>::empty());
        }
        let sorted = sort_items(resolved);
        Ok(RuleSet { identifier, items: sorted })
    }

    /// Assembles a whole document: builds the variable context, resolves
    /// every top-level declaration and rule set under the synthetic root,
    /// and sorts each scope by short identifier.
    pub fn derive_from(doc: &ast::Document) -> (r: Result<RuleSet, Error>)
        ensures
            match r {
                Ok(rs) => spec_assemble_document(doc@) == SpecAssemble::Built(rs@),
                Err(e) => match e {
                    Error::UnknownIdentifier { identifier: x } => spec_assemble_document(doc@)
                        == SpecAssemble::<SpecResolvedRuleSet>::Unknown(x@),
                    Error::TypeMismatch { slot, identifier: x } => spec_assemble_document(doc@)
                        == SpecAssemble::<SpecResolvedRuleSet>::Mismatch(slot, x@),
                    Error::CyclicReference { identifier: x } => spec_assemble_document(doc@)
                        == SpecAssemble::<SpecResolvedRuleSet>::Cycle(x@),
                    _ => false,
                },
            },
    {
        let ctx = VarContext::derive_from(doc);
        let root = Identifier::new();
        let ghost docv = doc@;
        let mut resolved: Vec<RuleSetItem> = Vec::new();
        let mut m: usize = 0;
        proof {
            assert(docv.skip(0) =~= docv);
            assert(spec_resolved_items_view(resolved@) =~= Seq::<SpecResolvedItem>::empty());
        }
        while m < doc.items.len()
            invariant
                m <= doc.items@.len(),
                docv == doc@,
                docv.len() == doc.items@.len(),
                ctx@ == crate::var_context::spec_derive(doc@),
                root@ == spec_root_identifier(),
                spec_assemble_document_items(ctx@, docv) == spec_cat_assembled(
                    spec_resolved_items_view(resolved@),
                    spec_assemble_document_items(ctx@, docv.skip(m as int)),
                ),
            decreases doc.items@.len() - m,
        {
            let ghost acc = spec_resolved_items_view(resolved@);
            proof {
                assert(docv.skip(m as int).first() == docv[m as int]);
                assert(docv.skip(m as int).drop_first() =~= docv.skip(m as int + 1));
                assert(docv[m as int] == doc.items@[m as int]@);
            }
            match &doc.items[m] {
                ast::DocumentItem::Variable(_) => {
                },
                ast::DocumentItem::Declaration(d) => {
                    match assemble_declaration(&ctx, &root, d) {
                        Ok(dd) => {
                            proof {
                                lemma_cat_assembled_push(
                                    acc,
                                    SpecResolvedItem::Declaration(dd@),
                                    spec_assemble_document_items(ctx@, docv.skip(m as int + 1)),
                                );
                            }
                            resolved.push(RuleSetItem::Declaration(dd));
                            proof {
                                assert(spec_resolved_items_view(resolved@) =~= acc.push(
                                    SpecResolvedItem::Declaration(dd@),
                                ));
                            }
                        },
                        Err(e) => {
                            return Err(e);
                        },
                    }
                },
                ast::DocumentItem::RuleSet(rr) => {
                    match RuleSet::new(root.appending(&rr.identifier), rr.items.as_slice(), &ctx) {
                        Ok(rs) => {
                            let ghost rsv = rs@;
                            proof {
                                lemma_cat_assembled_push(
                                    acc,
                                    SpecResolvedItem::RuleSet(rsv),
                                    spec_assemble_document_items(ctx@, docv.skip(m as int + 1)),
                                );
                            }
                            resolved.push(RuleSetItem::RuleSet(rs));
                            proof {
                                assert(spec_resolved_items_view(resolved@) =~= acc.push(
                                    SpecResolvedItem::RuleSet(rsv),
                                ));
                            }
                        },
                        Err(e) => {
                            return Err(e);
                        },
                    }
                },
            }
            m = m + 1;
        }
        proof {
            assert(docv.skip(docv.len() as int) =~= Seq::<SpecDocumentItem>::empty());
        }
        let sorted = sort_items(resolved);
        Ok(RuleSet { identifier: root, items: sorted })
    }
}

// ---------------------------------------------------------------------------
// Laws of the ordering and the sort
// ---------------------------------------------------------------------------

proof fn lemma_lex_le_from_total(a: Seq<u8>, b: Seq<u8>, i: int)
    ensures
        spec_lex_le_from(a, b, i) || spec_lex_le_from(b, a, i),
    decreases a.len() - i,
{
    if i < a.len() && i < b.len() && a[i] == b[i] {
        lemma_lex_le_from_total(a, b, i + 1);
    }
}

/// The order on short identifiers is total.
pub proof fn lemma_lex_le_total(a: Seq<u8>, b: Seq<u8>)
    ensures
        spec_lex_le(a, b) || spec_lex_le(b, a),
{
    lemma_lex_le_from_total(a, b, 0);
}

proof fn lemma_lex_le_from_trans(a: Seq<u8>, b: Seq<u8>, c: Seq<u8>, i: int)
    requires
        spec_lex_le_from(a, b, i),
        spec_lex_le_from(b, c, i),
    ensures
        spec_lex_le_from(a, c, i),
    decreases a.len() - i,
{
    if i < a.len() && i < b.len() && i < c.len() && a[i] == b[i] && b[i] == c[i] {
        lemma_lex_le_from_trans(a, b, c, i + 1);
    }
}

/// The order on short identifiers is transitive.
pub proof fn lemma_lex_le_trans(a: Seq<u8>, b: Seq<u8>, c: Seq<u8>)
    requires
        spec_lex_le(a, b),
        spec_lex_le(b, c),
    ensures
        spec_lex_le(a, c),
{
    lemma_lex_le_from_trans(a, b, c, 0);
}

/// Inserting into a sorted sequence keeps it sorted.
pub proof fn lemma_insert_sorted_sorted(s: Seq<SpecResolvedItem>, x: SpecResolvedItem)
    requires
        spec_items_sorted(s),
    ensures
        spec_items_sorted(spec_insert_sorted(s, x)),
    decreases s.len(),
{
    if s.len() == 0 {
    } else if spec_lex_le(spec_short_of(s.last()), spec_short_of(x)) {
        let r = s.push(x);
        assert forall|i: int, j: int| 0 <= i < j < r.len() implies spec_lex_le(
            spec_short_of(#[trigger] r[i]),
            spec_short_of(#[trigger] r[j]),
        ) by {
            if j == r.len() - 1 {
                if i < s.len() - 1 {
                    lemma_lex_le_trans(
                        spec_short_of(s[i]),
                        spec_short_of(s.last()),
                        spec_short_of(x),
                    );
                }
            }
        }
    } else {
        let s0 = s.drop_last();
        assert(spec_items_sorted(s0)) by {
            assert(forall|i: int, j: int|
                0 <= i < j < s0.len() ==> spec_lex_le(
                    spec_short_of(#[trigger] s0[i]),
                    spec_short_of(#[trigger] s0[j]),
                ));
        }
        lemma_insert_sorted_sorted(s0, x);
        lemma_lex_le_total(spec_short_of(s.last()), spec_short_of(x));
        let r0 = spec_insert_sorted(s0, x);
        let r = r0.push(s.last());
        // every element of the inserted prefix is either an old element of
        // s0 (below s.last() by sortedness) or x itself (below s.last() by
        // totality)
        lemma_insert_sorted_membership(s0, x);
        assert forall|i: int, j: int| 0 <= i < j < r.len() implies spec_lex_le(
            spec_short_of(#[trigger] r[i]),
            spec_short_of(#[trigger] r[j]),
        ) by {
            if j == r.len() - 1 {
                assert(r[j] == s.last());
                let e = r0[i];
                if e == x {
                } else {
                    let q = choose|q: int| 0 <= q < s0.len() && s0[q] == e;
                    assert(spec_lex_le(spec_short_of(s0[q]), spec_short_of(s.last())));
                }
            }
        }
    }
}

/// Every element of an insertion's result is the inserted element or one
/// of the old elements.
proof fn lemma_insert_sorted_membership(s: Seq<SpecResolvedItem>, x: SpecResolvedItem)
    ensures
        spec_insert_sorted(s, x).len() == s.len() + 1,
        forall|i: int|
            0 <= i < spec_insert_sorted(s, x).len() ==> (#[trigger] spec_insert_sorted(s, x)[i]
                == x || exists|q: int| 0 <= q < s.len() && s[q] == spec_insert_sorted(s, x)[i]),
    decreases s.len(),
{
    if s.len() == 0 {
    } else if spec_lex_le(spec_short_of(s.last()), spec_short_of(x)) {
        assert forall|i: int| 0 <= i < s.push(x).len() implies (#[trigger] s.push(x)[i] == x
            || exists|q: int| 0 <= q < s.len() && s[q] == s.push(x)[i]) by {
            if i < s.len() {
                assert(s[i] == s.push(x)[i]);
            }
        }
    } else {
        let s0 = s.drop_last();
        lemma_insert_sorted_membership(s0, x);
        let r0 = spec_insert_sorted(s0, x);
        let r = r0.push(s.last());
        assert forall|i: int| 0 <= i < r.len() implies (#[trigger] r[i] == x || exists|q: int|
            0 <= q < s.len() && s[q] == r[i]) by {
            if i == r.len() - 1 {
                assert(s[s.len() - 1] == r[i]);
            } else {
                assert(r[i] == r0[i]);
                if r0[i] != x {
                    let q = choose|q: int| 0 <= q < s0.len() && s0[q] == r0[i];
                    assert(s[q] == r[i]);
                }
            }
        }
    }
}

/// The sort's result is sorted by short identifier.
pub proof fn lemma_sort_items_sorted(s: Seq<SpecResolvedItem>)
    ensures
        spec_items_sorted(spec_sort_items(s)),
    decreases s.len(),
{
    if s.len() == 0 {
        assert(spec_items_sorted(Seq::<SpecResolvedItem>::empty()));
    } else {
        lemma_sort_items_sorted(s.drop_last());
        lemma_insert_sorted_sorted(spec_sort_items(s.drop_last()), s.last());
    }
}

/// Sorting an already sorted sequence leaves it unchanged: equal keys keep
/// their order, so the sort is stable.
pub proof fn lemma_sort_of_sorted(s: Seq<SpecResolvedItem>)
    requires
        spec_items_sorted(s),
    ensures
        spec_sort_items(s) == s,
    decreases s.len(),
{
    if s.len() == 0 {
        assert(spec_sort_items(s) =~= s);
    } else {
        let s0 = s.drop_last();
        assert(spec_items_sorted(s0)) by {
            assert(forall|i: int, j: int|
                0 <= i < j < s0.len() ==> spec_lex_le(
                    spec_short_of(#[trigger] s0[i]),
                    spec_short_of(#[trigger] s0[j]),
                ));
        }
        lemma_sort_of_sorted(s0);
        if s0.len() == 0 {
            assert(spec_insert_sorted(s0, s.last()) =~= s);
        } else {
            assert(spec_lex_le(spec_short_of(s0.last()), spec_short_of(s.last())));
            assert(s0.push(s.last()) =~= s);
        }
    }
}

/// Sorting is idempotent: assembling the same document twice yields the
/// same tree, and re-sorting a sorted scope changes nothing.
pub proof fn lemma_sort_items_idempotent(s: Seq<SpecResolvedItem>)
    ensures
        spec_sort_items(spec_sort_items(s)) == spec_sort_items(s),
{
    lemma_sort_items_sorted(s);
    lemma_sort_of_sorted(spec_sort_items(s));
}

/// The stable insertion neither drops nor duplicates items: its result
/// holds exactly the old items plus the inserted one.
pub proof fn lemma_insert_sorted_multiset(s: Seq<SpecResolvedItem>, x: SpecResolvedItem)
    ensures
        spec_insert_sorted(s, x).to_multiset() == s.to_multiset().insert(x),
    decreases s.len(),
{
    broadcast use vstd::seq_lib::group_to_multiset_ensures;

    if s.len() == 0 {
        assert(seq![x] =~= Seq::<SpecResolvedItem>::empty().push(x));
        assert(spec_insert_sorted(s, x).to_multiset() =~= s.to_multiset().insert(x));
    } else if spec_lex_le(spec_short_of(s.last()), spec_short_of(x)) {
        assert(spec_insert_sorted(s, x).to_multiset() =~= s.to_multiset().insert(x));
    } else {
        let s0 = s.drop_last();
        lemma_insert_sorted_multiset(s0, x);
        assert(s =~= s0.push(s.last()));
        assert(spec_insert_sorted(s0, x).push(s.last()).to_multiset() =~= s0.to_multiset().insert(
            x,
        ).insert(s.last()));
        assert(s0.to_multiset().insert(x).insert(s.last()) =~= s0.to_multiset().insert(
            s.last(),
        ).insert(x));
    }
}

/// The sort is a permutation: sorting keeps exactly the same items.
pub proof fn lemma_sort_items_multiset(s: Seq<SpecResolvedItem>)
    ensures
        spec_sort_items(s).to_multiset() == s.to_multiset(),
    decreases s.len(),
{
    broadcast use vstd::seq_lib::group_to_multiset_ensures;

    if s.len() == 0 {
        assert(spec_sort_items(s).to_multiset() =~= s.to_multiset());
    } else {
        let s0 = s.drop_last();
        lemma_sort_items_multiset(s0);
        lemma_insert_sorted_multiset(spec_sort_items(s0), s.last());
        assert(s =~= s0.push(s.last()));
        assert(spec_sort_items(s).to_multiset() =~= s.to_multiset());
    }
}

/// Whether every scope of a resolved tree is sorted by short identifier.
pub open spec fn spec_tree_sorted(rs: SpecResolvedRuleSet) -> bool
    decreases rs, 1int,
{
    spec_items_sorted(rs.items) && (forall|i: int|
        0 <= i < rs.items.len() ==> spec_tree_item_sorted(#[trigger] rs.items[i]))
}

/// Whether a resolved item's own scopes are all sorted.
pub open spec fn spec_tree_item_sorted(it: SpecResolvedItem) -> bool
    decreases it, 0int,
{
    match it {
        SpecResolvedItem::Declaration(_) => true,
        SpecResolvedItem::RuleSet(r) => spec_tree_sorted(r),
    }
}

/// Every element of the sort's result is one of the input's elements.
proof fn lemma_sort_items_membership(s: Seq<SpecResolvedItem>)
    ensures
        spec_sort_items(s).len() == s.len(),
        forall|i: int|
            0 <= i < spec_sort_items(s).len() ==> exists|q: int|
                0 <= q < s.len() && s[q] == #[trigger] spec_sort_items(s)[i],
    decreases s.len(),
{
    if s.len() == 0 {
    } else {
        let s0 = s.drop_last();
        lemma_sort_items_membership(s0);
        lemma_insert_sorted_membership(spec_sort_items(s0), s.last());
        assert forall|i: int| 0 <= i < spec_sort_items(s).len() implies exists|q: int|
            0 <= q < s.len() && s[q] == #[trigger] spec_sort_items(s)[i] by {
            let e = spec_sort_items(s)[i];
            if e == s.last() {
                assert(s[s.len() - 1] == e);
            } else {
                let q0 = choose|q0: int|
                    0 <= q0 < spec_sort_items(s0).len() && spec_sort_items(s0)[q0] == e;
                let q1 = choose|q1: int| 0 <= q1 < s0.len() && s0[q1] == e;
                assert(s[q1] == e);
            }
        }
    }
}

/// Every scope of an assembled tree is sorted by short identifier: the
/// assembler's output is deterministic whatever the source order was.
pub proof fn lemma_assemble_ruleset_tree_sorted(
    m: Seq<(Seq<u8>, SpecValue)>,
    id: SpecIdentifier,
    items: Seq<SpecRuleSetItem>,
    rs: SpecResolvedRuleSet,
)
    requires
        spec_assemble_ruleset(m, id, items) == SpecAssemble::Built(rs),
    ensures
        spec_tree_sorted(rs),
    decreases items, 2int,
{
    match spec_assemble_items(m, id, items) {
        SpecAssemble::Built(res) => {
            lemma_sort_items_sorted(res);
            lemma_sort_items_membership(res);
            lemma_assemble_items_tree_sorted(m, id, items, res);
            assert forall|i: int| 0 <= i < rs.items.len() implies spec_tree_item_sorted(
                #[trigger] rs.items[i],
            ) by {
                let q = choose|q: int| 0 <= q < res.len() && res[q] == spec_sort_items(res)[i];
            }
        },
        _ => {},
    }
}

/// Every item assembled from a scope's body has all of its own scopes
/// sorted.
proof fn lemma_assemble_items_tree_sorted(
    m: Seq<(Seq<u8>, SpecValue)>,
    id: SpecIdentifier,
    items: Seq<SpecRuleSetItem>,
    res: Seq<SpecResolvedItem>,
)
    requires
        spec_assemble_items(m, id, items) == SpecAssemble::Built(res),
    ensures
        forall|i: int| 0 <= i < res.len() ==> spec_tree_item_sorted(#[trigger] res[i]),
    decreases items, 1int,
{
    if items.len() == 0 {
    } else {
        match spec_assemble_item(m, id, items.first()) {
            SpecAssemble::Built(x) => {
                match spec_assemble_items(m, id, items.drop_first()) {
                    SpecAssemble::Built(rest) => {
                        lemma_assemble_item_tree_sorted(m, id, items.first(), x);
                        lemma_assemble_items_tree_sorted(m, id, items.drop_first(), rest);
                        assert forall|i: int| 0 <= i < res.len() implies spec_tree_item_sorted(
                            #[trigger] res[i],
                        ) by {
                            assert(res == seq![x] + rest);
                            if i == 0 {
                                assert(res[i] == x);
                            } else {
                                assert(res[i] == rest[i - 1]);
                            }
                        }
                    },
                    _ => {},
                }
            },
            _ => {},
        }
    }
}

/// One assembled item has all of its own scopes sorted.
proof fn lemma_assemble_item_tree_sorted(
    m: Seq<(Seq<u8>, SpecValue)>,
    id: SpecIdentifier,
    it: SpecRuleSetItem,
    x: SpecResolvedItem,
)
    requires
        spec_assemble_item(m, id, it) == SpecAssemble::Built(x),
    ensures
        spec_tree_item_sorted(x),
    decreases it, 3int,
{
    match it {
        SpecRuleSetItem::Declaration(d) => {
            match d.value {
                SpecValue::Color(_) => {},
                SpecValue::ColorSet(_) => {},
                SpecValue::Variable(_) => {},
            }
        },
        SpecRuleSetItem::RuleSet(r) => {
            match spec_assemble_ruleset(m, spec_appending(id, r.identifier), r.items) {
                SpecAssemble::Built(rs) => {
                    lemma_assemble_ruleset_tree_sorted(
                        m,
                        spec_appending(id, r.identifier),
                        r.items,
                        rs,
                    );
                },
                _ => {},
            }
        },
    }
}

/// The whole assembled document is a tree of sorted scopes.
pub proof fn lemma_assemble_document_tree_sorted(
    items: Seq<SpecDocumentItem>,
    rs: SpecResolvedRuleSet,
)
    requires
        spec_assemble_document(items) == SpecAssemble::Built(rs),
    ensures
        spec_tree_sorted(rs),
{
    let m = crate::var_context::spec_derive(items);
    match spec_assemble_document_items(m, items) {
        SpecAssemble::Built(res) => {
            lemma_sort_items_sorted(res);
            lemma_sort_items_membership(res);
            lemma_assemble_document_items_tree_sorted(m, items, res);
            assert forall|i: int| 0 <= i < rs.items.len() implies spec_tree_item_sorted(
                #[trigger] rs.items[i],
            ) by {
                let q = choose|q: int| 0 <= q < res.len() && res[q] == spec_sort_items(res)[i];
            }
        },
        _ => {},
    }
}

/// Every item assembled from the document's top level has all of its own
/// scopes sorted.
proof fn lemma_assemble_document_items_tree_sorted(
    m: Seq<(Seq<u8>, SpecValue)>,
    items: Seq<SpecDocumentItem>,
    res: Seq<SpecResolvedItem>,
)
    requires
        spec_assemble_document_items(m, items) == SpecAssemble::Built(res),
    ensures
        forall|i: int| 0 <= i < res.len() ==> spec_tree_item_sorted(#[trigger] res[i]),
    decreases items.len(),
{
    if items.len() == 0 {
    } else {
        match items.first() {
            SpecDocumentItem::Variable(_) => {
                lemma_assemble_document_items_tree_sorted(m, items.drop_first(), res);
            },
            SpecDocumentItem::Declaration(d) => {
                match spec_assemble_declaration(m, spec_root_identifier(), d) {
                    SpecAssemble::Built(x) => {
                        match spec_assemble_document_items(m, items.drop_first()) {
                            SpecAssemble::Built(rest) => {
                                lemma_assemble_document_items_tree_sorted(
                                    m,
                                    items.drop_first(),
                                    rest,
                                );
                                assert forall|i: int|
                                    0 <= i < res.len() implies spec_tree_item_sorted(
                                    #[trigger] res[i],
                                ) by {
                                    assert(res == seq![x] + rest);
                                    if i == 0 {
                                        assert(res[i] == x);
                                        match d.value {
                                            SpecValue::Color(_) => {},
                                            SpecValue::ColorSet(_) => {},
                                            SpecValue::Variable(_) => {},
                                        }
                                    } else {
                                        assert(res[i] == rest[i - 1]);
                                    }
                                }
                            },
                            _ => {},
                        }
                    },
                    _ => {},
                }
            },
            SpecDocumentItem::RuleSet(r) => {
                match spec_assemble_ruleset(
                    m,
                    spec_appending(spec_root_identifier(), r.identifier),
                    r.items,
                ) {
                    SpecAssemble::Built(rs2) => {
                        match spec_assemble_document_items(m, items.drop_first()) {
                            SpecAssemble::Built(rest) => {
                                lemma_assemble_ruleset_tree_sorted(
                                    m,
                                    spec_appending(spec_root_identifier(), r.identifier),
                                    r.items,
                                    rs2,
                                );
                                lemma_assemble_document_items_tree_sorted(
                                    m,
                                    items.drop_first(),
                                    rest,
                                );
                                assert forall|i: int|
                                    0 <= i < res.len() implies spec_tree_item_sorted(
                                    #[trigger] res[i],
                                ) by {
                                    assert(res == seq![SpecResolvedItem::RuleSet(rs2)] + rest);
                                    if i == 0 {
                                        assert(res[i] == SpecResolvedItem::RuleSet(rs2));
                                    } else {
                                        assert(res[i] == rest[i - 1]);
                                    }
                                }
                            },
                            _ => {},
                        }
                    },
                    _ => {},
                }
            },
        }
    }
}

/// Whether a resolved declaration value holds only well formed colours.
pub open spec fn spec_resolved_value_valid(v: DeclarationValue) -> bool {
    match v {
        DeclarationValue::Color(c) => c.valid(),
        DeclarationValue::ColorSet(cs) => cs.light.valid() && cs.dark.valid(),
    }
}

/// Whether every colour of a resolved tree is well formed.
pub open spec fn spec_tree_valid(rs: SpecResolvedRuleSet) -> bool
    decreases rs, 1int,
{
    forall|i: int| 0 <= i < rs.items.len() ==> spec_tree_item_valid_colors(#[trigger] rs.items[i])
}

/// Whether every colour of a resolved item is well formed.
pub open spec fn spec_tree_item_valid_colors(it: SpecResolvedItem) -> bool
    decreases it, 0int,
{
    match it {
        SpecResolvedItem::Declaration(d) => spec_resolved_value_valid(d.value),
        SpecResolvedItem::RuleSet(r) => spec_tree_valid(r),
    }
}

/// Assembling a well formed declaration through a well formed context
/// yields only well formed colours.
proof fn lemma_assemble_declaration_valid(
    m: Seq<(Seq<u8>, SpecValue)>,
    parent: SpecIdentifier,
    d: crate::ast::SpecDeclaration<SpecValue>,
    x: SpecResolvedItem,
)
    requires
        crate::var_context::spec_context_valid(m),
        crate::ast::spec_value_valid(d.value),
        spec_assemble_declaration(m, parent, d) == SpecAssemble::Built(x),
    ensures
        spec_tree_item_valid_colors(x),
{
    match d.value {
        SpecValue::Color(_) => {},
        SpecValue::ColorSet(cs) => {
            match spec_resolve_colorset(m, cs, spec_budget(m)) {
                SpecResolveOutcome::Resolved(rv) => {
                    crate::var_context::lemma_resolve_colorset_valid(m, cs, spec_budget(m), rv);
                },
                _ => {},
            }
        },
        SpecValue::Variable(v) => {
            match spec_resolve(m, v.identifier, v.opacity, spec_budget(m)) {
                SpecResolveOutcome::Resolved(rv) => {
                    crate::var_context::lemma_resolve_valid(
                        m,
                        v.identifier,
                        v.opacity,
                        spec_budget(m),
                        rv,
                    );
                },
                _ => {},
            }
        },
    }
}

/// Every scope assembled from well formed items holds only well formed
/// colours.
pub proof fn lemma_assemble_ruleset_valid(
    m: Seq<(Seq<u8>, SpecValue)>,
    id: SpecIdentifier,
    items: Seq<SpecRuleSetItem>,
    rs: SpecResolvedRuleSet,
)
    requires
        crate::var_context::spec_context_valid(m),
        forall|i: int|
            0 <= i < items.len() ==> crate::ast::spec_ruleset_item_valid(#[trigger] items[i]),
        spec_assemble_ruleset(m, id, items) == SpecAssemble::Built(rs),
    ensures
        spec_tree_valid(rs),
    decreases items, 2int,
{
    match spec_assemble_items(m, id, items) {
        SpecAssemble::Built(res) => {
            lemma_sort_items_membership(res);
            lemma_assemble_items_valid(m, id, items, res);
            assert forall|i: int| 0 <= i < rs.items.len() implies spec_tree_item_valid_colors(
                #[trigger] rs.items[i],
            ) by {
                let q = choose|q: int| 0 <= q < res.len() && res[q] == spec_sort_items(res)[i];
            }
        },
        _ => {},
    }
}

/// Every item assembled from a well formed scope body holds only well
/// formed colours.
proof fn lemma_assemble_items_valid(
    m: Seq<(Seq<u8>, SpecValue)>,
    id: SpecIdentifier,
    items: Seq<SpecRuleSetItem>,
    res: Seq<SpecResolvedItem>,
)
    requires
        crate::var_context::spec_context_valid(m),
        forall|i: int|
            0 <= i < items.len() ==> crate::ast::spec_ruleset_item_valid(#[trigger] items[i]),
        spec_assemble_items(m, id, items) == SpecAssemble::Built(res),
    ensures
        forall|i: int| 0 <= i < res.len() ==> spec_tree_item_valid_colors(#[trigger] res[i]),
    decreases items, 1int,
{
    if items.len() == 0 {
    } else {
        match spec_assemble_item(m, id, items.first()) {
            SpecAssemble::Built(x) => {
                match spec_assemble_items(m, id, items.drop_first()) {
                    SpecAssemble::Built(rest) => {
                        assert(items[0] == items.first());
                        lemma_assemble_item_valid(m, id, items.first(), x);
                        assert(forall|i: int|
                            0 <= i < items.drop_first().len()
                                ==> crate::ast::spec_ruleset_item_valid(
                                #[trigger] items.drop_first()[i],
                            ));
                        lemma_assemble_items_valid(m, id, items.drop_first(), rest);
                        assert forall|i: int|
                            0 <= i < res.len() implies spec_tree_item_valid_colors(
                            #[trigger] res[i],
                        ) by {
                            assert(res == seq![x] + rest);
                            if i == 0 {
                                assert(res[i] == x);
                            } else {
                                assert(res[i] == rest[i - 1]);
                            }
                        }
                    },
                    _ => {},
                }
            },
            _ => {},
        }
    }
}

/// One item assembled from a well formed body item holds only well formed
/// colours.
proof fn lemma_assemble_item_valid(
    m: Seq<(Seq<u8>, SpecValue)>,
    id: SpecIdentifier,
    it: SpecRuleSetItem,
    x: SpecResolvedItem,
)
    requires
        crate::var_context::spec_context_valid(m),
        crate::ast::spec_ruleset_item_valid(it),
        spec_assemble_item(m, id, it) == SpecAssemble::Built(x),
    ensures
        spec_tree_item_valid_colors(x),
    decreases it, 3int,
{
    match it {
        SpecRuleSetItem::Declaration(d) => {
            lemma_assemble_declaration_valid(m, id, d, x);
        },
        SpecRuleSetItem::RuleSet(r) => {
            match spec_assemble_ruleset(m, spec_appending(id, r.identifier), r.items) {
                SpecAssemble::Built(rs) => {
                    lemma_assemble_ruleset_valid(
                        m,
                        spec_appending(id, r.identifier),
                        r.items,
                        rs,
                    );
                },
                _ => {},
            }
        },
    }
}

/// The tree assembled from a well formed document holds only well formed
/// colours: every alpha in it stays within full opacity.
pub proof fn lemma_assemble_document_valid(
    items: Seq<SpecDocumentItem>,
    rs: SpecResolvedRuleSet,
)
    requires
        crate::ast::spec_document_valid(items),
        spec_assemble_document(items) == SpecAssemble::Built(rs),
    ensures
        spec_tree_valid(rs),
{
    let m = crate::var_context::spec_derive(items);
    crate::var_context::lemma_derive_valid(items);
    match spec_assemble_document_items(m, items) {
        SpecAssemble::Built(res) => {
            lemma_sort_items_membership(res);
            lemma_assemble_document_items_valid(m, items, res);
            assert forall|i: int| 0 <= i < rs.items.len() implies spec_tree_item_valid_colors(
                #[trigger] rs.items[i],
            ) by {
                let q = choose|q: int| 0 <= q < res.len() && res[q] == spec_sort_items(res)[i];
            }
        },
        _ => {},
    }
}

/// Every item assembled from a well formed document top level holds only
/// well formed colours.
proof fn lemma_assemble_document_items_valid(
    m: Seq<(Seq<u8>, SpecValue)>,
    items: Seq<SpecDocumentItem>,
    res: Seq<SpecResolvedItem>,
)
    requires
        crate::var_context::spec_context_valid(m),
        crate::ast::spec_document_valid(items),
        spec_assemble_document_items(m, items) == SpecAssemble::Built(res),
    ensures
        forall|i: int| 0 <= i < res.len() ==> spec_tree_item_valid_colors(#[trigger] res[i]),
    decreases items.len(),
{
    if items.len() == 0 {
    } else {
        assert(items[0] == items.first());
        assert(crate::ast::spec_document_valid(items.drop_first())) by {
            assert(forall|i: int|
                0 <= i < items.drop_first().len() ==> crate::ast::spec_document_item_valid(
                    #[trigger] items.drop_first()[i],
                ));
        }
        match items.first() {
            SpecDocumentItem::Variable(_) => {
                lemma_assemble_document_items_valid(m, items.drop_first(), res);
            },
            SpecDocumentItem::Declaration(d) => {
                match spec_assemble_declaration(m, spec_root_identifier(), d) {
                    SpecAssemble::Built(x) => {
                        match spec_assemble_document_items(m, items.drop_first()) {
                            SpecAssemble::Built(rest) => {
                                lemma_assemble_declaration_valid(m, spec_root_identifier(), d, x);
                                lemma_assemble_document_items_valid(m, items.drop_first(), rest);
                                assert forall|i: int|
                                    0 <= i < res.len() implies spec_tree_item_valid_colors(
                                    #[trigger] res[i],
                                ) by {
                                    assert(res == seq![x] + rest);
                                    if i == 0 {
                                        assert(res[i] == x);
                                    } else {
                                        assert(res[i] == rest[i - 1]);
                                    }
                                }
                            },
                            _ => {},
                        }
                    },
                    _ => {},
                }
            },
            SpecDocumentItem::RuleSet(r) => {
                match spec_assemble_ruleset(
                    m,
                    spec_appending(spec_root_identifier(), r.identifier),
                    r.items,
                ) {
                    SpecAssemble::Built(rs2) => {
                        match spec_assemble_document_items(m, items.drop_first()) {
                            SpecAssemble::Built(rest) => {
                                assert(forall|i: int|
                                    0 <= i < r.items.len()
                                        ==> crate::ast::spec_ruleset_item_valid(
                                        #[trigger] r.items[i],
                                    ));
                                lemma_assemble_ruleset_valid(
                                    m,
                                    spec_appending(spec_root_identifier(), r.identifier),
                                    r.items,
                                    rs2,
                                );
                                lemma_assemble_document_items_valid(m, items.drop_first(), rest);
                                assert forall|i: int|
                                    0 <= i < res.len() implies spec_tree_item_valid_colors(
                                    #[trigger] res[i],
                                ) by {
                                    assert(res == seq![SpecResolvedItem::RuleSet(rs2)] + rest);
                                    if i == 0 {
                                        assert(res[i] == SpecResolvedItem::RuleSet(rs2));
                                    } else {
                                        assert(res[i] == rest[i - 1]);
                                    }
                                }
                            },
                            _ => {},
                        }
                    },
                    _ => {},
                }
            },
        }
    }
}

} // verus!
