//! Variable context: a read-only index of a document's top-level variable
//! declarations, and resolution of variable references and colour sets to
//! concrete colours.
//!
//! Resolution follows indirection chains; the opacity override of the
//! outermost reference is the one applied to the resolved colour's alpha
//! (overrides do not accumulate along a chain). A chain longer than the
//! number of indexed variables must revisit an identifier, so resolution
//! carries a step budget of one more than that number and reports a cyclic
//! reference when the budget runs out.

use vstd::prelude::*;

use crate::ast::{
    spec_slot_valid, spec_value_valid, Color, ColorSet, Document, SpecColorSet, SpecColorSetValue,
    SpecDocumentItem, SpecValue, Value, Variable,
};
use crate::error::{Error, Slot};

verus! {

broadcast use vstd::std_specs::vec::group_vec_axioms;

/// A concrete pair of colours for light and dark appearance.
#[derive(Structural, PartialEq, Eq, Clone, Copy, Debug)]
pub struct ResolvedColorSet {
    pub light: Color,
    pub dark: Color,
}

/// The concrete result of resolving a variable reference.
#[derive(Structural, PartialEq, Eq, Clone, Copy, Debug)]
pub enum ResolvedVariable {
    Color(Color),
    ColorSet(ResolvedColorSet),
}

/// Specification-level outcome of a resolution.
pub enum SpecResolveOutcome {
    Resolved(ResolvedVariable),
    Unknown(Seq<u8>),
    Mismatch(Slot, Seq<u8>),
    Cycle(Seq<u8>),
}

/// Alpha scaling in thousandths: `a * opacity / 1000`, truncated, capped at
/// the largest representable value (the cap is never reached for well formed
/// colours and opacities, which do not exceed 1000).
pub open spec fn spec_scale_alpha(a: u16, opacity: u16) -> u16 {
    let v = (a as int) * (opacity as int) / 1000;
    if v <= 65535 {
        v as u16
    } else {
        65535u16
    }
}

/// The step budget resolution starts with: one more than the number of
/// indexed variables, so that only a chain revisiting an identifier can
/// run out.
pub open spec fn spec_budget(m: Seq<(Seq<u8>, SpecValue)>) -> nat {
    if m.len() < usize::MAX {
        m.len() + 1
    } else {
        usize::MAX as nat
    }
}

/// The index a document gives rise to: one entry per top-level variable
/// declaration, in document order.
pub open spec fn spec_derive(items: Seq<SpecDocumentItem>) -> Seq<(Seq<u8>, SpecValue)>
    decreases items.len(),
{
    if items.len() == 0 {
        Seq::empty()
    } else {
        spec_derive(items.drop_last()) + (match items.last() {
            SpecDocumentItem::Variable(d) => seq![(d.identifier, d.value)],
            _ => Seq::empty(),
        })
    }
}

/// Looks an identifier up in the index; the latest matching entry wins.
pub open spec fn spec_lookup(m: Seq<(Seq<u8>, SpecValue)>, id: Seq<u8>) -> Option<SpecValue>
    decreases m.len(),
{
    if m.len() == 0 {
        None
    } else if m.last().0 == id {
        Some(m.last().1)
    } else {
        spec_lookup(m.drop_last(), id)
    }
}

/// Resolves the identifier of a variable reference, applying `opacity` to
/// the alpha of the colour the chain ends in.
pub open spec fn spec_resolve(
    m: Seq<(Seq<u8>, SpecValue)>,
    id: Seq<u8>,
    opacity: u16,
    fuel: nat,
) -> SpecResolveOutcome
    decreases fuel, 2int,
{
    if fuel == 0 {
        SpecResolveOutcome::Cycle(id)
    } else {
        match spec_lookup(m, id) {
            None => SpecResolveOutcome::Unknown(id),
            Some(SpecValue::Variable(v)) => spec_resolve(
                m,
                v.identifier,
                opacity,
                (fuel - 1) as nat,
            ),
            Some(SpecValue::Color(c)) => SpecResolveOutcome::Resolved(
                ResolvedVariable::Color(
                    Color { r: c.r, g: c.g, b: c.b, a: spec_scale_alpha(c.a, opacity) },
                ),
            ),
            Some(SpecValue::ColorSet(cs)) => spec_resolve_colorset(m, cs, (fuel - 1) as nat),
        }
    }
}

/// Resolves a colour set: both slots must resolve to single colours; the
/// light slot is resolved first and the first failure aborts.
pub open spec fn spec_resolve_colorset(
    m: Seq<(Seq<u8>, SpecValue)>,
    cs: SpecColorSet,
    fuel: nat,
) -> SpecResolveOutcome
    decreases fuel, 1int,
{
    match spec_resolve_slot(m, cs.light, Slot::Light, fuel) {
        SpecResolveOutcome::Resolved(ResolvedVariable::Color(lc)) => match spec_resolve_slot(
            m,
            cs.dark,
            Slot::Dark,
            fuel,
        ) {
            SpecResolveOutcome::Resolved(ResolvedVariable::Color(dc)) =>
                SpecResolveOutcome::Resolved(
                ResolvedVariable::ColorSet(ResolvedColorSet { light: lc, dark: dc }),
            ),
            o => o,
        },
        o => o,
    }
}

/// Resolves one colour set slot: a literal colour is used as it stands; a
/// variable must resolve to a single colour, a colour set is the
/// type-mismatch error naming the slot and the variable.
pub open spec fn spec_resolve_slot(
    m: Seq<(Seq<u8>, SpecValue)>,
    sv: SpecColorSetValue,
    slot: Slot,
    fuel: nat,
) -> SpecResolveOutcome
    decreases fuel, 0int,
{
    match sv {
        SpecColorSetValue::Color(c) => SpecResolveOutcome::Resolved(ResolvedVariable::Color(c)),
        SpecColorSetValue::Variable(v) => if fuel > 0 {
            match spec_resolve(m, v.identifier, v.opacity, (fuel - 1) as nat) {
                SpecResolveOutcome::Resolved(ResolvedVariable::Color(c)) =>
                    SpecResolveOutcome::Resolved(ResolvedVariable::Color(c)),
                SpecResolveOutcome::Resolved(ResolvedVariable::ColorSet(_)) =>
                    SpecResolveOutcome::Mismatch(slot, v.identifier),
                o => o,
            }
        } else {
            SpecResolveOutcome::Cycle(v.identifier)
        },
    }
}

/// A read-only index of every top-level variable declaration of one
/// document; built once per compile and never mutated.
pub struct VarContext {
    entries: Vec<(Vec<u8>, Value)>,
}

impl View for VarContext {
    type V = Seq<(Seq<u8>, SpecValue)>;

    closed spec fn view(&self) -> Seq<(Seq<u8>, SpecValue)> {
        Seq::new(
            self.entries@.len(),
            |i: int|
                if 0 <= i < self.entries@.len() {
                    (self.entries[i].0@, self.entries[i].1@)
                } else {
                    arbitrary()
                },
        )
    }
}

/// Copies a byte string.
fn clone_bytes(v: &Vec<u8>) -> (r: Vec<u8>)
    ensures
        r@ == v@,
{
    let mut out: Vec<u8> = Vec::new();
    let mut m: usize = 0;
    while m < v.len()
        invariant
            m <= v@.len(),
            out@ == v@.subrange(0, m as int),
        decreases v@.len() - m,
    {
        out.push(v[m]);
        proof {
            assert(out@ =~= v@.subrange(0, m + 1));
        }
        m = m + 1;
    }
    proof {
        assert(v@.subrange(0, v@.len() as int) =~= v@);
    }
    out
}

/// Whether two byte strings are equal.
fn bytes_eq(a: &Vec<u8>, b: &Vec<u8>) -> (r: bool)
    ensures
        r == (a@ == b@),
{
    if a.len() != b.len() {
        proof {
            assert(a@ != b@);
        }
        return false;
    }
    let mut m: usize = 0;
    while m < a.len()
        invariant
            m <= a@.len(),
            a@.len() == b@.len(),
            forall|q: int| 0 <= q < m ==> a@[q] == b@[q],
        decreases a@.len() - m,
    {
        if a[m] != b[m] {
            proof {
                assert(a@ != b@);
            }
            return false;
        }
        m = m + 1;
    }
    proof {
        assert(a@ =~= b@);
    }
    true
}

/// Copies a variable reference.
fn clone_variable(v: &Variable) -> (r: Variable)
    ensures
        r@ == v@,
{
    Variable { identifier: clone_bytes(&v.identifier), opacity: v.opacity }
}

/// Copies a value.
fn clone_value(v: &Value) -> (r: Value)
    ensures
        r@ == v@,
{
    match v {
        Value::Variable(x) => Value::Variable(clone_variable(x)),
        Value::Color(c) => Value::Color(*c),
        Value::ColorSet(cs) => Value::ColorSet(
            ColorSet {
                light: clone_slot_value(&cs.light),
                dark: clone_slot_value(&cs.dark),
            },
        ),
    }
}

/// Copies a colour set slot value.
fn clone_slot_value(v: &crate::ast::ColorSetValue) -> (r: crate::ast::ColorSetValue)
    ensures
        r@ == v@,
{
    match v {
        crate::ast::ColorSetValue::Variable(x) => crate::ast::ColorSetValue::Variable(
            clone_variable(x),
        ),
        crate::ast::ColorSetValue::Color(c) => crate::ast::ColorSetValue::Color(*c),
    }
}

/// Alpha scaling in thousandths.
fn scale_alpha(a: u16, opacity: u16) -> (r: u16)
    ensures
        r == spec_scale_alpha(a, opacity),
{
    proof {
        assert((a as int) * (opacity as int) <= 65535 * 65535) by (nonlinear_arith)
            requires
                a <= 65535,
                opacity <= 65535,
        ;
    }
    let v: u64 = (a as u64) * (opacity as u64) / 1000;
    if v <= 65535 {
        v as u16
    } else {
        65535u16
    }
}

impl VarContext {
    /// Indexes every top-level variable declaration of `doc`; a later
    /// declaration of the same identifier overwrites an earlier one at
    /// lookup time. Never fails.
    pub fn derive_from(doc: &Document) -> (r: VarContext)
        ensures
            r@ == spec_derive(doc@),
    {
        let mut entries: Vec<(Vec<u8>, Value)> = Vec::new();
        let mut m: usize = 0;
        while m < doc.items.len()
            invariant
                m <= doc.items@.len(),
                ({
                    let ctx = VarContext { entries };
                    ctx@ == spec_derive(doc@.subrange(0, m as int))
                }),
            decreases doc.items@.len() - m,
        {
            let ghost pre = VarContext { entries }@;
            match &doc.items[m] {
                crate::ast::DocumentItem::Variable(d) => {
                    entries.push((clone_bytes(&d.identifier), clone_value(&d.value)));
                },
                _ => {},
            }
            proof {
                assert(doc@.subrange(0, m + 1).drop_last() =~= doc@.subrange(0, m as int));
                assert(doc@.subrange(0, m + 1).last() == doc@[m as int]);
                let post = VarContext { entries }@;
                match doc@[m as int] {
                    SpecDocumentItem::Variable(d) => {
                        assert(post =~= pre + seq![(d.identifier, d.value)]);
                    },
                    _ => {
                        assert(post =~= pre + Seq::<(Seq<u8>, SpecValue)>::empty());
                    },
                }
            }
            m = m + 1;
        }
        proof {
            assert(doc@.subrange(0, doc@.len() as int) =~= doc@);
        }
        VarContext { entries }
    }

    /// Looks an identifier up; the latest matching entry wins.
    fn lookup(&self, id: &Vec<u8>) -> (r: Option<&Value>)
        ensures
            match r {
                Some(v) => spec_lookup(self@, id@) == Some(v@),
                None => spec_lookup(self@, id@) is None,
            },
    {
        let mut m: usize = self.entries.len();
        proof {
            assert(self@.subrange(0, self@.len() as int) =~= self@);
        }
        while m > 0
            invariant
                m <= self.entries@.len(),
                spec_lookup(self@, id@) == spec_lookup(self@.subrange(0, m as int), id@),
            decreases m,
        {
            m = m - 1;
            proof {
                assert(self@.subrange(0, m + 1).drop_last() =~= self@.subrange(0, m as int));
                assert(self@.subrange(0, m + 1).last() == self@[m as int]);
            }
            if bytes_eq(&self.entries[m].0, id) {
                return Some(&self.entries[m].1);
            }
        }
        proof {
            assert(self@.subrange(0, 0) =~= Seq::<(Seq<u8>, SpecValue)>::empty());
        }
        None
    }

    /// Resolves an identifier with an opacity override and a step budget.
    fn resolve_inner(&self, id: &Vec<u8>, opacity: u16, fuel: usize) -> (r: Result<
        ResolvedVariable,
        Error,
    >)
        ensures
            match r {
                Ok(rv) => spec_resolve(self@, id@, opacity, fuel as nat)
                    == SpecResolveOutcome::Resolved(rv),
                Err(e) => match e {
                    Error::UnknownIdentifier { identifier } => spec_resolve(
                        self@,
                        id@,
                        opacity,
                        fuel as nat,
                    ) == SpecResolveOutcome::Unknown(identifier@),
                    Error::TypeMismatch { slot, identifier } => spec_resolve(
                        self@,
                        id@,
                        opacity,
                        fuel as nat,
                    ) == SpecResolveOutcome::Mismatch(slot, identifier@),
                    Error::CyclicReference { identifier } => spec_resolve(
                        self@,
                        id@,
                        opacity,
                        fuel as nat,
                    ) == SpecResolveOutcome::Cycle(identifier@),
                    _ => false,
                },
            },
        decreases fuel, 2int,
    {
        if fuel == 0 {
            return Err(Error::CyclicReference { identifier: clone_bytes(id) });
        }
        match self.lookup(id) {
            None => Err(Error::UnknownIdentifier { identifier: clone_bytes(id) }),
            Some(v) => {
                let v = clone_value(v);
                match v {
                    Value::Variable(inner) => self.resolve_inner(
                        &inner.identifier,
                        opacity,
                        fuel - 1,
                    ),
                    Value::Color(c) => Ok(
                        ResolvedVariable::Color(
                            Color { r: c.r, g: c.g, b: c.b, a: scale_alpha(c.a, opacity) },
                        ),
                    ),
                    Value::ColorSet(cs) => match self.resolve_colorset_inner(&cs, fuel - 1) {
                        Ok(rcs) => Ok(ResolvedVariable::ColorSet(rcs)),
                        Err(e) => Err(e),
                    },
                }
            },
        }
    }

    /// Resolves both slots of a colour set with a step budget.
    fn resolve_colorset_inner(&self, cs: &ColorSet, fuel: usize) -> (r: Result<
        ResolvedColorSet,
        Error,
    >)
        ensures
            match r {
                Ok(rcs) => spec_resolve_colorset(self@, cs@, fuel as nat)
                    == SpecResolveOutcome::Resolved(ResolvedVariable::ColorSet(rcs)),
                Err(e) => match e {
                    Error::UnknownIdentifier { identifier } => spec_resolve_colorset(
                        self@,
                        cs@,
                        fuel as nat,
                    ) == SpecResolveOutcome::Unknown(identifier@),
                    Error::TypeMismatch { slot, identifier } => spec_resolve_colorset(
                        self@,
                        cs@,
                        fuel as nat,
                    ) == SpecResolveOutcome::Mismatch(slot, identifier@),
                    Error::CyclicReference { identifier } => spec_resolve_colorset(
                        self@,
                        cs@,
                        fuel as nat,
                    ) == SpecResolveOutcome::Cycle(identifier@),
                    _ => false,
                },
            },
        decreases fuel, 1int,
    {
        let light = match self.resolve_slot(&cs.light, Slot::Light, fuel) {
            Ok(c) => c,
            Err(e) => {
                return Err(e);
            },
        };
        let dark = match self.resolve_slot(&cs.dark, Slot::Dark, fuel) {
            Ok(c) => c,
            Err(e) => {
                return Err(e);
            },
        };
        Ok(ResolvedColorSet { light, dark })
    }

    /// Resolves one colour set slot to a single colour.
    fn resolve_slot(&self, sv: &crate::ast::ColorSetValue, slot: Slot, fuel: usize) -> (r: Result<
        Color,
        Error,
    >)
        ensures
            match r {
                Ok(c) => spec_resolve_slot(self@, sv@, slot, fuel as nat)
                    == SpecResolveOutcome::Resolved(ResolvedVariable::Color(c)),
                Err(e) => match e {
                    Error::UnknownIdentifier { identifier } => spec_resolve_slot(
                        self@,
                        sv@,
                        slot,
                        fuel as nat,
                    ) == SpecResolveOutcome::Unknown(identifier@),
                    Error::TypeMismatch { slot: s2, identifier } => spec_resolve_slot(
                        self@,
                        sv@,
                        slot,
                        fuel as nat,
                    ) == SpecResolveOutcome::Mismatch(s2, identifier@),
                    Error::CyclicReference { identifier } => spec_resolve_slot(
                        self@,
                        sv@,
                        slot,
                        fuel as nat,
                    ) == SpecResolveOutcome::Cycle(identifier@),
                    _ => false,
                },
            },
        decreases fuel, 0int,
    {
        match sv {
            crate::ast::ColorSetValue::Color(c) => Ok(*c),
            crate::ast::ColorSetValue::Variable(v) => {
                if fuel > 0 {
                    match self.resolve_inner(&v.identifier, v.opacity, fuel - 1) {
                        Ok(ResolvedVariable::Color(c)) => Ok(c),
                        Ok(ResolvedVariable::ColorSet(_)) => Err(
                            Error::TypeMismatch { slot, identifier: clone_bytes(&v.identifier) },
                        ),
                        Err(e) => Err(e),
                    }
                } else {
                    Err(Error::CyclicReference { identifier: clone_bytes(&v.identifier) })
                }
            },
        }
    }

    /// Resolves a variable reference to a concrete colour or colour set.
    ///
    /// Succeeds exactly when the reference's chain of indirections reaches
    /// a colour or a fully resolvable colour set within the step budget;
    /// the outer reference's opacity is the one applied to the resolved
    /// colour's alpha.
    pub fn resolve(&self, variable: &Variable) -> (r: Result<ResolvedVariable, Error>)
        ensures
            match r {
                Ok(rv) => spec_resolve(
                    self@,
                    variable@.identifier,
                    variable@.opacity,
                    spec_budget(self@),
                ) == SpecResolveOutcome::Resolved(rv),
                Err(e) => match e {
                    Error::UnknownIdentifier { identifier } => spec_resolve(
                        self@,
                        variable@.identifier,
                        variable@.opacity,
                        spec_budget(self@),
                    ) == SpecResolveOutcome::Unknown(identifier@),
                    Error::TypeMismatch { slot, identifier } => spec_resolve(
                        self@,
                        variable@.identifier,
                        variable@.opacity,
                        spec_budget(self@),
                    ) == SpecResolveOutcome::Mismatch(slot, identifier@),
                    Error::CyclicReference { identifier } => spec_resolve(
                        self@,
                        variable@.identifier,
                        variable@.opacity,
                        spec_budget(self@),
                    ) == SpecResolveOutcome::Cycle(identifier@),
                    _ => false,
                },
            },
    {
        let n = self.entries.len();
        proof {
            assert(self@.len() == self.entries@.len());
        }
        let fuel: usize = if n < usize::MAX {
            n + 1
        } else {
            usize::MAX
        };
        proof {
            assert(fuel as nat == spec_budget(self@));
        }
        self.resolve_inner(&variable.identifier, variable.opacity, fuel)
    }

    /// Resolves a colour set's light and dark slots to concrete colours.
    ///
    /// Succeeds exactly when both slots resolve to single colours; a slot
    /// whose variable resolves to another colour set is the type-mismatch
    /// error naming that slot and variable, and the light slot is resolved
    /// first.
    pub fn resolve_colorset(&self, colorset: &ColorSet) -> (r: Result<ResolvedColorSet, Error>)
        ensures
            match r {
                Ok(rcs) => spec_resolve_colorset(self@, colorset@, spec_budget(self@))
                    == SpecResolveOutcome::Resolved(ResolvedVariable::ColorSet(rcs)),
                Err(e) => match e {
                    Error::UnknownIdentifier { identifier } => spec_resolve_colorset(
                        self@,
                        colorset@,
                        spec_budget(self@),
                    ) == SpecResolveOutcome::Unknown(identifier@),
                    Error::TypeMismatch { slot, identifier } => spec_resolve_colorset(
                        self@,
                        colorset@,
                        spec_budget(self@),
                    ) == SpecResolveOutcome::Mismatch(slot, identifier@),
                    Error::CyclicReference { identifier } => spec_resolve_colorset(
                        self@,
                        colorset@,
                        spec_budget(self@),
                    ) == SpecResolveOutcome::Cycle(identifier@),
                    _ => false,
                },
            },
    {
        let n = self.entries.len();
        proof {
            assert(self@.len() == self.entries@.len());
        }
        let fuel: usize = if n < usize::MAX {
            n + 1
        } else {
            usize::MAX
        };
        proof {
            assert(fuel as nat == spec_budget(self@));
        }
        self.resolve_colorset_inner(colorset, fuel)
    }
}

// ---------------------------------------------------------------------------
// Laws
// ---------------------------------------------------------------------------

/// Indirection keeps the outer opacity: when an identifier is bound to
/// another variable reference, resolving it continues at the referenced
/// identifier with the *outer* opacity; the inner reference's own opacity
/// is not applied and overrides do not accumulate.
pub proof fn lemma_resolve_indirection(
    m: Seq<(Seq<u8>, SpecValue)>,
    id: Seq<u8>,
    v: crate::ast::SpecVariable,
    opacity: u16,
    fuel: nat,
)
    requires
        fuel > 0,
        spec_lookup(m, id) == Some(SpecValue::Variable(v)),
    ensures
        spec_resolve(m, id, opacity, fuel) == spec_resolve(
            m,
            v.identifier,
            opacity,
            (fuel - 1) as nat,
        ),
{
}

/// A chain that ends in a colour yields that colour's channels unchanged,
/// with the outer opacity applied to its alpha.
pub proof fn lemma_resolve_color(
    m: Seq<(Seq<u8>, SpecValue)>,
    id: Seq<u8>,
    c: Color,
    opacity: u16,
    fuel: nat,
)
    requires
        fuel > 0,
        spec_lookup(m, id) == Some(SpecValue::Color(c)),
    ensures
        spec_resolve(m, id, opacity, fuel) == SpecResolveOutcome::Resolved(
            ResolvedVariable::Color(
                Color { r: c.r, g: c.g, b: c.b, a: spec_scale_alpha(c.a, opacity) },
            ),
        ),
{
}

/// For well formed alphas and opacities the scaling is exact: alpha times
/// opacity, in thousandths, truncated, and never above full opacity.
pub proof fn lemma_scale_alpha_exact(a: u16, opacity: u16)
    requires
        a <= 1000,
        opacity <= 1000,
    ensures
        spec_scale_alpha(a, opacity) == (a as int) * (opacity as int) / 1000,
        spec_scale_alpha(a, opacity) <= 1000,
{
    assert((a as int) * (opacity as int) <= 1000 * 1000) by (nonlinear_arith)
        requires
            a <= 1000,
            opacity <= 1000,
    ;
    assert((a as int) * (opacity as int) >= 0) by (nonlinear_arith);
}

/// A colour set slot whose variable resolves to another colour set fails
/// with the type-mismatch error naming that slot and that variable.
pub proof fn lemma_slot_mismatch(
    m: Seq<(Seq<u8>, SpecValue)>,
    v: crate::ast::SpecVariable,
    slot: Slot,
    rcs: ResolvedColorSet,
    fuel: nat,
)
    requires
        fuel > 0,
        spec_resolve(m, v.identifier, v.opacity, (fuel - 1) as nat) == SpecResolveOutcome::Resolved(
            ResolvedVariable::ColorSet(rcs),
        ),
    ensures
        spec_resolve_slot(m, SpecColorSetValue::Variable(v), slot, fuel)
            == SpecResolveOutcome::Mismatch(slot, v.identifier),
{
}

/// An identifier that no top-level variable declaration binds resolves to
/// the unknown-identifier error naming it.
pub proof fn lemma_resolve_unknown(
    m: Seq<(Seq<u8>, SpecValue)>,
    id: Seq<u8>,
    opacity: u16,
    fuel: nat,
)
    requires
        fuel > 0,
        spec_lookup(m, id) is None,
    ensures
        spec_resolve(m, id, opacity, fuel) == SpecResolveOutcome::Unknown(id),
{
}

/// The step budget never changes a result, it only bounds the chase: a
/// resolution that does not run out of budget returns the same outcome
/// under every larger budget.
pub proof fn lemma_resolve_budget_monotone(
    m: Seq<(Seq<u8>, SpecValue)>,
    id: Seq<u8>,
    opacity: u16,
    f1: nat,
    f2: nat,
)
    requires
        f1 <= f2,
        !(spec_resolve(m, id, opacity, f1) is Cycle),
    ensures
        spec_resolve(m, id, opacity, f2) == spec_resolve(m, id, opacity, f1),
    decreases f1, 2int,
{
    if f1 == 0 {
    } else {
        match spec_lookup(m, id) {
            None => {},
            Some(SpecValue::Variable(v)) => {
                lemma_resolve_budget_monotone(
                    m,
                    v.identifier,
                    opacity,
                    (f1 - 1) as nat,
                    (f2 - 1) as nat,
                );
            },
            Some(SpecValue::Color(_)) => {},
            Some(SpecValue::ColorSet(cs)) => {
                lemma_resolve_colorset_budget_monotone(m, cs, (f1 - 1) as nat, (f2 - 1) as nat);
            },
        }
    }
}

/// Budget monotonicity for colour set resolution.
pub proof fn lemma_resolve_colorset_budget_monotone(
    m: Seq<(Seq<u8>, SpecValue)>,
    cs: SpecColorSet,
    f1: nat,
    f2: nat,
)
    requires
        f1 <= f2,
        !(spec_resolve_colorset(m, cs, f1) is Cycle),
    ensures
        spec_resolve_colorset(m, cs, f2) == spec_resolve_colorset(m, cs, f1),
    decreases f1, 1int,
{
    match spec_resolve_slot(m, cs.light, Slot::Light, f1) {
        SpecResolveOutcome::Resolved(ResolvedVariable::Color(_)) => {
            lemma_resolve_slot_budget_monotone(m, cs.light, Slot::Light, f1, f2);
            match spec_resolve_slot(m, cs.dark, Slot::Dark, f1) {
                SpecResolveOutcome::Cycle(_) => {},
                _ => {
                    lemma_resolve_slot_budget_monotone(m, cs.dark, Slot::Dark, f1, f2);
                },
            }
        },
        SpecResolveOutcome::Cycle(_) => {},
        _ => {
            lemma_resolve_slot_budget_monotone(m, cs.light, Slot::Light, f1, f2);
        },
    }
}

/// Budget monotonicity for one colour set slot.
pub proof fn lemma_resolve_slot_budget_monotone(
    m: Seq<(Seq<u8>, SpecValue)>,
    sv: SpecColorSetValue,
    slot: Slot,
    f1: nat,
    f2: nat,
)
    requires
        f1 <= f2,
        !(spec_resolve_slot(m, sv, slot, f1) is Cycle),
    ensures
        spec_resolve_slot(m, sv, slot, f2) == spec_resolve_slot(m, sv, slot, f1),
    decreases f1, 0int,
{
    match sv {
        SpecColorSetValue::Color(_) => {},
        SpecColorSetValue::Variable(v) => {
            if f1 > 0 {
                match spec_resolve(m, v.identifier, v.opacity, (f1 - 1) as nat) {
                    SpecResolveOutcome::Cycle(_) => {},
                    _ => {
                        lemma_resolve_budget_monotone(
                            m,
                            v.identifier,
                            v.opacity,
                            (f1 - 1) as nat,
                            (f2 - 1) as nat,
                        );
                    },
                }
            }
        },
    }
}

/// Whether every indexed value is well formed.
pub open spec fn spec_context_valid(m: Seq<(Seq<u8>, SpecValue)>) -> bool {
    forall|i: int| 0 <= i < m.len() ==> spec_value_valid((#[trigger] m[i]).1)
}

/// Looking up in a well formed context yields a well formed value.
proof fn lemma_lookup_valid(m: Seq<(Seq<u8>, SpecValue)>, id: Seq<u8>, v: SpecValue)
    requires
        spec_context_valid(m),
        spec_lookup(m, id) == Some(v),
    ensures
        spec_value_valid(v),
    decreases m.len(),
{
    if m.len() > 0 {
        if m.last().0 == id {
            assert(m[m.len() - 1].1 == v);
        } else {
            assert(spec_context_valid(m.drop_last())) by {
                assert(forall|i: int|
                    0 <= i < m.drop_last().len() ==> spec_value_valid(
                        (#[trigger] m.drop_last()[i]).1,
                    ));
            }
            lemma_lookup_valid(m.drop_last(), id, v);
        }
    }
}

/// In a well formed context, resolution only ever produces well formed
/// colours: every resolved alpha stays within full opacity.
pub proof fn lemma_resolve_valid(
    m: Seq<(Seq<u8>, SpecValue)>,
    id: Seq<u8>,
    opacity: u16,
    fuel: nat,
    rv: ResolvedVariable,
)
    requires
        spec_context_valid(m),
        opacity <= 1000,
        spec_resolve(m, id, opacity, fuel) == SpecResolveOutcome::Resolved(rv),
    ensures
        match rv {
            ResolvedVariable::Color(c) => c.valid(),
            ResolvedVariable::ColorSet(rcs) => rcs.light.valid() && rcs.dark.valid(),
        },
    decreases fuel, 2int,
{
    if fuel > 0 {
        match spec_lookup(m, id) {
            None => {},
            Some(SpecValue::Variable(v)) => {
                lemma_lookup_valid(m, id, SpecValue::Variable(v));
                lemma_resolve_valid(m, v.identifier, opacity, (fuel - 1) as nat, rv);
            },
            Some(SpecValue::Color(c)) => {
                lemma_lookup_valid(m, id, SpecValue::Color(c));
                lemma_scale_alpha_exact(c.a, opacity);
            },
            Some(SpecValue::ColorSet(cs)) => {
                lemma_lookup_valid(m, id, SpecValue::ColorSet(cs));
                lemma_resolve_colorset_valid(m, cs, (fuel - 1) as nat, rv);
            },
        }
    }
}

/// Colour set resolution in a well formed context yields well formed
/// colours for both slots.
pub proof fn lemma_resolve_colorset_valid(
    m: Seq<(Seq<u8>, SpecValue)>,
    cs: SpecColorSet,
    fuel: nat,
    rv: ResolvedVariable,
)
    requires
        spec_context_valid(m),
        spec_slot_valid(cs.light),
        spec_slot_valid(cs.dark),
        spec_resolve_colorset(m, cs, fuel) == SpecResolveOutcome::Resolved(rv),
    ensures
        match rv {
            ResolvedVariable::Color(c) => c.valid(),
            ResolvedVariable::ColorSet(rcs) => rcs.light.valid() && rcs.dark.valid(),
        },
    decreases fuel, 1int,
{
    match spec_resolve_slot(m, cs.light, Slot::Light, fuel) {
        SpecResolveOutcome::Resolved(ResolvedVariable::Color(lc)) => {
            lemma_resolve_slot_valid(m, cs.light, Slot::Light, fuel, lc);
            match spec_resolve_slot(m, cs.dark, Slot::Dark, fuel) {
                SpecResolveOutcome::Resolved(ResolvedVariable::Color(dc)) => {
                    lemma_resolve_slot_valid(m, cs.dark, Slot::Dark, fuel, dc);
                },
                _ => {},
            }
        },
        _ => {},
    }
}

/// One slot of a colour set resolves to a well formed colour.
proof fn lemma_resolve_slot_valid(
    m: Seq<(Seq<u8>, SpecValue)>,
    sv: SpecColorSetValue,
    slot: Slot,
    fuel: nat,
    c: Color,
)
    requires
        spec_context_valid(m),
        spec_slot_valid(sv),
        spec_resolve_slot(m, sv, slot, fuel) == SpecResolveOutcome::Resolved(
            ResolvedVariable::Color(c),
        ),
    ensures
        c.valid(),
    decreases fuel, 0int,
{
    match sv {
        SpecColorSetValue::Color(_) => {},
        SpecColorSetValue::Variable(v) => {
            if fuel > 0 {
                match spec_resolve(m, v.identifier, v.opacity, (fuel - 1) as nat) {
                    SpecResolveOutcome::Resolved(ResolvedVariable::Color(c2)) => {
                        lemma_resolve_valid(
                            m,
                            v.identifier,
                            v.opacity,
                            (fuel - 1) as nat,
                            ResolvedVariable::Color(c2),
                        );
                    },
                    _ => {},
                }
            }
        },
    }
}

/// The index of a well formed document is well formed.
pub proof fn lemma_derive_valid(items: Seq<SpecDocumentItem>)
    requires
        crate::ast::spec_document_valid(items),
    ensures
        spec_context_valid(spec_derive(items)),
    decreases items.len(),
{
    if items.len() > 0 {
        assert(crate::ast::spec_document_valid(items.drop_last())) by {
            assert(forall|i: int|
                0 <= i < items.drop_last().len() ==> crate::ast::spec_document_item_valid(
                    #[trigger] items.drop_last()[i],
                ));
        }
        lemma_derive_valid(items.drop_last());
        let pre = spec_derive(items.drop_last());
        assert(items[items.len() - 1] == items.last());
        match items.last() {
            SpecDocumentItem::Variable(d) => {
                assert forall|i: int| 0 <= i < spec_derive(items).len() implies spec_value_valid(
                    (#[trigger] spec_derive(items)[i]).1,
                ) by {
                    if i < pre.len() {
                        assert(spec_derive(items)[i] == pre[i]);
                    } else {
                        assert(spec_derive(items)[i] == (d.identifier, d.value));
                    }
                }
            },
            _ => {
                assert(spec_derive(items) =~= pre);
            },
        }
    }
}

} // verus!
