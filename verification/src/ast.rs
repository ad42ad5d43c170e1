//! Data model of the colour-definition language: colours, variable
//! references, colour sets, declarations, rule sets and whole documents,
//! together with their mathematical models (`Spec...` types) used in
//! contracts.
//!
//! Identifiers are byte strings of ASCII alphanumeric characters. Alpha and
//! opacity values are stored in thousandths (`0` = fully transparent,
//! `1000` = fully opaque); equality of colours is therefore exact.

use vstd::prelude::*;

verus! {

broadcast use vstd::std_specs::vec::group_vec_axioms, vstd::seq::group_seq_axioms;

/// A concrete colour: red, green and blue channels (0-255) and an alpha
/// value in thousandths (0-1000).
#[derive(Structural, PartialEq, Eq, Hash, Clone, Copy, Debug)]
pub struct Color {
    pub r: u8,
    pub g: u8,
    pub b: u8,
    /// Alpha in thousandths: 1000 means fully opaque.
    pub a: u16,
}

impl Color {
    /// A colour is well formed when its alpha does not exceed full opacity.
    pub open spec fn valid(self) -> bool {
        self.a <= 1000
    }
}

/// A reference to a named value, with a multiplicative opacity override in
/// thousandths (1000 = keep the referenced alpha unchanged).
#[derive(PartialEq, Eq, Clone, Debug)]
pub struct Variable {
    pub identifier: Vec<u8>,
    /// Opacity override in thousandths: 1000 means no change.
    pub opacity: u16,
}

/// Mathematical model of a [`Variable`].
pub struct SpecVariable {
    pub identifier: Seq<u8>,
    pub opacity: u16,
}

impl View for Variable {
    type V = SpecVariable;

    open spec fn view(&self) -> SpecVariable {
        SpecVariable { identifier: self.identifier@, opacity: self.opacity }
    }
}

/// The right-hand side of a light or dark slot of a colour set: either a
/// variable reference or a colour literal, never a nested colour set.
#[derive(PartialEq, Eq, Clone, Debug)]
pub enum ColorSetValue {
    Variable(Variable),
    Color(Color),
}

/// Mathematical model of a [`ColorSetValue`].
pub enum SpecColorSetValue {
    Variable(SpecVariable),
    Color(Color),
}

impl View for ColorSetValue {
    type V = SpecColorSetValue;

    open spec fn view(&self) -> SpecColorSetValue {
        match self {
            ColorSetValue::Variable(v) => SpecColorSetValue::Variable(v@),
            ColorSetValue::Color(c) => SpecColorSetValue::Color(*c),
        }
    }
}

/// A pair of values, one for light appearance and one for dark appearance.
#[derive(PartialEq, Eq, Clone, Debug)]
pub struct ColorSet {
    pub light: ColorSetValue,
    pub dark: ColorSetValue,
}

/// Mathematical model of a [`ColorSet`].
pub struct SpecColorSet {
    pub light: SpecColorSetValue,
    pub dark: SpecColorSetValue,
}

impl View for ColorSet {
    type V = SpecColorSet;

    open spec fn view(&self) -> SpecColorSet {
        SpecColorSet { light: self.light@, dark: self.dark@ }
    }
}

/// The right-hand side of any declaration.
#[derive(PartialEq, Eq, Clone, Debug)]
pub enum Value {
    Variable(Variable),
    Color(Color),
    ColorSet(ColorSet),
}

/// Mathematical model of a [`Value`].
pub enum SpecValue {
    Variable(SpecVariable),
    Color(Color),
    ColorSet(SpecColorSet),
}

impl View for Value {
    type V = SpecValue;

    open spec fn view(&self) -> SpecValue {
        match self {
            Value::Variable(v) => SpecValue::Variable(v@),
            Value::Color(c) => SpecValue::Color(*c),
            Value::ColorSet(cs) => SpecValue::ColorSet(cs@),
        }
    }
}

/// A named binding of an identifier to a value.
#[derive(PartialEq, Eq, Clone, Debug)]
pub struct Declaration<T> {
    pub identifier: Vec<u8>,
    pub value: T,
}

/// Mathematical model of a [`Declaration`].
pub struct SpecDeclaration<T> {
    pub identifier: Seq<u8>,
    pub value: T,
}

impl<T: View> View for Declaration<T> {
    type V = SpecDeclaration<T::V>;

    open spec fn view(&self) -> SpecDeclaration<T::V> {
        SpecDeclaration { identifier: self.identifier@, value: self.value@ }
    }
}

/// A named grouping scope: declarations and further rule sets.
#[derive(PartialEq, Eq, Debug)]
pub struct RuleSet {
    pub identifier: Vec<u8>,
    pub items: Vec<RuleSetItem>,
}

/// An item of a rule set body.
#[derive(PartialEq, Eq, Debug)]
pub enum RuleSetItem {
    RuleSet(RuleSet),
    Declaration(Declaration<Value>),
}

/// Mathematical model of a [`RuleSet`].
pub struct SpecRuleSet {
    pub identifier: Seq<u8>,
    pub items: Seq<SpecRuleSetItem>,
}

/// Mathematical model of a [`RuleSetItem`].
pub enum SpecRuleSetItem {
    RuleSet(SpecRuleSet),
    Declaration(SpecDeclaration<SpecValue>),
}

pub open spec fn spec_ruleset_view(r: RuleSet) -> SpecRuleSet
    decreases r,
{
    SpecRuleSet { identifier: r.identifier@, items: spec_ruleset_items_view(r.items@) }
}

/// Model of a sequence of rule set items.
pub open spec fn spec_ruleset_items_view(v: Seq<RuleSetItem>) -> Seq<SpecRuleSetItem>
    decreases v,
{
    Seq::new(
        v.len(),
        |i: int|
            if 0 <= i < v.len() {
                spec_ruleset_item_view(v[i])
            } else {
                arbitrary()
            },
    )
}

pub open spec fn spec_ruleset_item_view(it: RuleSetItem) -> SpecRuleSetItem
    decreases it,
{
    match it {
        RuleSetItem::RuleSet(r) => SpecRuleSetItem::RuleSet(spec_ruleset_view(r)),
        RuleSetItem::Declaration(d) => SpecRuleSetItem::Declaration(d@),
    }
}

impl View for RuleSet {
    type V = SpecRuleSet;

    open spec fn view(&self) -> SpecRuleSet {
        spec_ruleset_view(*self)
    }
}

impl View for RuleSetItem {
    type V = SpecRuleSetItem;

    open spec fn view(&self) -> SpecRuleSetItem {
        spec_ruleset_item_view(*self)
    }
}

/// A top-level item of a document.
#[derive(PartialEq, Eq, Debug)]
pub enum DocumentItem {
    Variable(Declaration<Value>),
    RuleSet(RuleSet),
    Declaration(Declaration<Value>),
}

/// Mathematical model of a [`DocumentItem`].
pub enum SpecDocumentItem {
    Variable(SpecDeclaration<SpecValue>),
    RuleSet(SpecRuleSet),
    Declaration(SpecDeclaration<SpecValue>),
}

impl View for DocumentItem {
    type V = SpecDocumentItem;

    open spec fn view(&self) -> SpecDocumentItem {
        match self {
            DocumentItem::Variable(d) => SpecDocumentItem::Variable(d@),
            DocumentItem::RuleSet(r) => SpecDocumentItem::RuleSet(r@),
            DocumentItem::Declaration(d) => SpecDocumentItem::Declaration(d@),
        }
    }
}

/// An ordered sequence of top-level items.
#[derive(PartialEq, Eq, Debug)]
pub struct Document {
    pub items: Vec<DocumentItem>,
}

/// Model of a sequence of document items.
pub open spec fn spec_document_items_view(v: Seq<DocumentItem>) -> Seq<SpecDocumentItem> {
    Seq::new(
        v.len(),
        |i: int|
            if 0 <= i < v.len() {
                v[i]@
            } else {
                arbitrary()
            },
    )
}

impl View for Document {
    type V = Seq<SpecDocumentItem>;

    open spec fn view(&self) -> Seq<SpecDocumentItem> {
        spec_document_items_view(self.items@)
    }
}


// ---------------------------------------------------------------------------
// Well-formedness
// ---------------------------------------------------------------------------

/// A variable reference is well formed when its opacity override does not
/// exceed full opacity.
pub open spec fn spec_variable_valid(v: SpecVariable) -> bool {
    v.opacity <= 1000
}

/// Whether a colour set slot value is well formed.
pub open spec fn spec_slot_valid(v: SpecColorSetValue) -> bool {
    match v {
        SpecColorSetValue::Variable(x) => spec_variable_valid(x),
        SpecColorSetValue::Color(c) => c.valid(),
    }
}

/// Whether a colour set literal is well formed.
pub open spec fn spec_colorset_valid(cs: SpecColorSet) -> bool {
    spec_slot_valid(cs.light) && spec_slot_valid(cs.dark)
}

/// Whether a value is well formed: every colour and every opacity override
/// in it stays within full opacity.
pub open spec fn spec_value_valid(v: SpecValue) -> bool {
    match v {
        SpecValue::Variable(x) => spec_variable_valid(x),
        SpecValue::Color(c) => c.valid(),
        SpecValue::ColorSet(cs) => spec_colorset_valid(cs),
    }
}

/// Whether every value in a rule set is well formed.
pub open spec fn spec_ruleset_valid(r: SpecRuleSet) -> bool
    decreases r, 1int,
{
    forall|i: int| 0 <= i < r.items.len() ==> spec_ruleset_item_valid(#[trigger] r.items[i])
}

/// Whether every value in a rule set item is well formed.
pub open spec fn spec_ruleset_item_valid(it: SpecRuleSetItem) -> bool
    decreases it, 0int,
{
    match it {
        SpecRuleSetItem::RuleSet(r) => spec_ruleset_valid(r),
        SpecRuleSetItem::Declaration(d) => spec_value_valid(d.value),
    }
}

/// Whether every value in a top-level item is well formed.
pub open spec fn spec_document_item_valid(it: SpecDocumentItem) -> bool {
    match it {
        SpecDocumentItem::Variable(d) => spec_value_valid(d.value),
        SpecDocumentItem::RuleSet(r) => spec_ruleset_valid(r),
        SpecDocumentItem::Declaration(d) => spec_value_valid(d.value),
    }
}

/// Whether every value in a document is well formed.
pub open spec fn spec_document_valid(items: Seq<SpecDocumentItem>) -> bool {
    forall|i: int| 0 <= i < items.len() ==> spec_document_item_valid(#[trigger] items[i])
}

} // verus!
