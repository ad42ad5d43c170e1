//! Recursive-descent parser for the colour-definition language.
//!
//! The grammar is specified by pure `spec` functions over the input byte
//! sequence; every executable parsing function is proved to return exactly
//! what the specification says. Parsing is all-or-nothing: a document either
//! parses completely or a single error describes the failure.
//!
//! Grammar summary (ASCII bytes):
//! - comments run from `//` to the end of the line;
//! - identifiers are one or more alphanumeric bytes; variable identifiers
//!   are prefixed with `$`;
//! - hex colours are `#RRGGBB`, optionally followed by whitespace and an
//!   integer percentage `NN%` (0-100) setting the alpha;
//! - functional colours are `rgba(R, G, B, A)` with decimal channels 0-255
//!   and a decimal alpha literal between 0 and 1;
//! - colour sets are `(light: <value>, dark: <value>)` in either order;
//! - declarations are `identifier: value`, variables `$identifier: value`;
//! - rule sets are `identifier { ... }` with one item per line.

use vstd::prelude::*;

use crate::ast::{
    spec_colorset_valid, spec_document_item_valid, spec_document_items_view, spec_document_valid,
    spec_ruleset_item_valid, spec_ruleset_item_view, spec_ruleset_items_view, spec_ruleset_valid,
    spec_slot_valid, spec_value_valid, spec_variable_valid, Color, ColorSet,
    ColorSetValue, Declaration, Document, DocumentItem, RuleSet, RuleSetItem, SpecColorSet,
    SpecColorSetValue, SpecDeclaration, SpecDocumentItem, SpecRuleSet, SpecRuleSetItem, SpecValue,
    SpecVariable, Value, Variable,
};
use crate::error::Error;

verus! {

broadcast use vstd::std_specs::vec::group_vec_axioms;

// ---------------------------------------------------------------------------
// Outcomes
// ---------------------------------------------------------------------------

/// Specification-level outcome of a parsing rule that can also detect a
/// colour set whose two labels are not `light` and `dark`: either a parsed
/// value with the position just past it, that label error (carrying both
/// offending identifiers), or a plain grammar failure.
pub enum SpecParsed<T> {
    Parsed(T, int),
    Labels(Seq<u8>, Seq<u8>),
    Fail,
}

/// The grammar rule a parsing failure was detected in; failures carry the
/// chain of rules that were active, innermost first.
#[derive(PartialEq, Eq, Clone, Copy, Debug)]
pub enum ParseContext {
    Identifier,
    VariableIdentifier,
    HexValue,
    AlphaValue,
    RgbaValue,
    ColorSet,
    Declaration,
    Variable,
    RuleSet,
    LineDelimiter,
    Document,
}

/// Failure of a parsing rule: either the input does not match the grammar
/// (with the offset reached and the chain of active rules, innermost first),
/// or a colour set literal whose two labels are not `light` and `dark`.
#[derive(PartialEq, Eq, Clone, Debug)]
pub enum ParseFail {
    Grammar { offset: usize, contexts: Vec<ParseContext> },
    ColorSetLabels { first: Vec<u8>, second: Vec<u8> },
}

// Byte values of the ASCII characters the grammar uses.
pub const TAB: u8 = 9;
pub const NEWLINE: u8 = 10;
pub const CARRIAGE_RETURN: u8 = 13;
pub const SPACE: u8 = 32;
pub const HASH_SIGN: u8 = 35;
pub const DOLLAR_SIGN: u8 = 36;
pub const PERCENT_SIGN: u8 = 37;
pub const LEFT_PAREN: u8 = 40;
pub const RIGHT_PAREN: u8 = 41;
pub const COMMA: u8 = 44;
pub const DOT: u8 = 46;
pub const SLASH: u8 = 47;
pub const DIGIT_ZERO: u8 = 48;
pub const DIGIT_NINE: u8 = 57;
pub const COLON: u8 = 58;
pub const UPPER_A: u8 = 65;
pub const UPPER_F: u8 = 70;
pub const UPPER_Z: u8 = 90;
pub const LEFT_BRACE: u8 = 123;
pub const RIGHT_BRACE: u8 = 125;
pub const LOWER_A: u8 = 97;
pub const LOWER_B: u8 = 98;
pub const LOWER_D: u8 = 100;
pub const LOWER_F: u8 = 102;
pub const LOWER_G: u8 = 103;
pub const LOWER_H: u8 = 104;
pub const LOWER_I: u8 = 105;
pub const LOWER_K: u8 = 107;
pub const LOWER_L: u8 = 108;
pub const LOWER_R: u8 = 114;
pub const LOWER_T: u8 = 116;
pub const LOWER_Z: u8 = 122;

// ---------------------------------------------------------------------------
// Byte classes
// ---------------------------------------------------------------------------

pub open spec fn is_space(c: u8) -> bool {
    c == SPACE || c == TAB
}

pub open spec fn is_multispace(c: u8) -> bool {
    c == SPACE || c == TAB || c == CARRIAGE_RETURN || c == NEWLINE
}

pub open spec fn is_digit_byte(c: u8) -> bool {
    DIGIT_ZERO <= c && c <= DIGIT_NINE
}

pub open spec fn is_hex_digit_byte(c: u8) -> bool {
    is_digit_byte(c) || (LOWER_A <= c && c <= LOWER_F) || (UPPER_A <= c && c <= UPPER_F)
}

pub open spec fn is_alphanumeric_byte(c: u8) -> bool {
    is_digit_byte(c) || (LOWER_A <= c && c <= LOWER_Z) || (UPPER_A <= c && c <= UPPER_Z)
}

/// Numeric value of one hexadecimal digit.
pub open spec fn hex_digit_value(c: u8) -> int {
    if is_digit_byte(c) {
        c - DIGIT_ZERO
    } else if LOWER_A <= c && c <= LOWER_F {
        c - LOWER_A + 10
    } else {
        c - UPPER_A + 10
    }
}

// ---------------------------------------------------------------------------
// Specification of the lexical layer
// ---------------------------------------------------------------------------

/// Position after the run of spaces and tabs starting at `i`.
pub open spec fn spec_skip_space(s: Seq<u8>, i: int) -> int
    decreases s.len() - i,
{
    if 0 <= i < s.len() && is_space(s[i]) {
        spec_skip_space(s, i + 1)
    } else {
        i
    }
}

/// Position after the run of whitespace (including line breaks) and whole
/// `//` comments starting at `i`.
pub open spec fn spec_skip_blank(s: Seq<u8>, i: int) -> int
    decreases s.len() - i, 0int,
{
    if 0 <= i < s.len() && is_multispace(s[i]) {
        spec_skip_blank(s, i + 1)
    } else if 0 <= i && i + 1 < s.len() && s[i] == SLASH && s[i + 1] == SLASH {
        spec_skip_in_comment(s, i + 2)
    } else {
        i
    }
}

/// Helper of [`spec_skip_blank`]: inside a comment body, skip to the end of
/// the line and continue skipping blank space.
pub open spec fn spec_skip_in_comment(s: Seq<u8>, j: int) -> int
    decreases s.len() - j, 1int,
{
    if 0 <= j < s.len() && s[j] != NEWLINE {
        spec_skip_in_comment(s, j + 1)
    } else {
        spec_skip_blank(s, j)
    }
}

/// Position after the run of alphanumeric bytes starting at `i`.
pub open spec fn spec_alnum_end(s: Seq<u8>, i: int) -> int
    decreases s.len() - i,
{
    if 0 <= i < s.len() && is_alphanumeric_byte(s[i]) {
        spec_alnum_end(s, i + 1)
    } else {
        i
    }
}

/// Position after the run of decimal digits starting at `i`.
pub open spec fn spec_digit_end(s: Seq<u8>, i: int) -> int
    decreases s.len() - i,
{
    if 0 <= i < s.len() && is_digit_byte(s[i]) {
        spec_digit_end(s, i + 1)
    } else {
        i
    }
}

/// Value of the decimal digit run `s[i..j)`.
pub open spec fn spec_dec_val(s: Seq<u8>, i: int, j: int) -> int
    decreases j - i,
{
    if i < j {
        spec_dec_val(s, i, j - 1) * 10 + (s[j - 1] - DIGIT_ZERO)
    } else {
        0
    }
}

// ---------------------------------------------------------------------------
// Specification of the grammar rules
// ---------------------------------------------------------------------------

/// `identifier`: optional spaces, then one or more alphanumeric bytes.
pub open spec fn spec_identifier(s: Seq<u8>, i: int) -> Option<(Seq<u8>, int)> {
    let j = spec_skip_space(s, i);
    let k = spec_alnum_end(s, j);
    if k > j {
        Some((s.subrange(j, k), k))
    } else {
        None
    }
}

/// `variable identifier`: optional spaces, `$`, then an identifier with no
/// space after the sigil.
pub open spec fn spec_variable_identifier(s: Seq<u8>, i: int) -> Option<(Seq<u8>, int)> {
    let j = spec_skip_space(s, i);
    if j < s.len() && s[j] == DOLLAR_SIGN {
        let k = spec_alnum_end(s, j + 1);
        if k > j + 1 {
            Some((s.subrange(j + 1, k), k))
        } else {
            None
        }
    } else {
        None
    }
}

/// `alpha value`: an integer percentage `NN%` with `NN` between 0 and 100,
/// yielding thousandths.
pub open spec fn spec_alpha_value(s: Seq<u8>, i: int) -> Option<(u16, int)> {
    let k = spec_digit_end(s, i);
    if k > i && k < s.len() && s[k] == PERCENT_SIGN && spec_dec_val(s, i, k) <= 100 {
        Some(((spec_dec_val(s, i, k) * 10) as u16, k + 1))
    } else {
        None
    }
}

/// An optional ` NN%` suffix after a colour or variable reference: at least
/// one space, then an alpha value; if anything is missing the suffix is not
/// consumed and the alpha defaults to fully opaque.
pub open spec fn spec_opt_alpha_suffix(s: Seq<u8>, i: int) -> (u16, int) {
    if i < s.len() && is_space(s[i]) {
        match spec_alpha_value(s, spec_skip_space(s, i)) {
            Some((a, k)) => (a, k),
            None => (1000u16, i),
        }
    } else {
        (1000u16, i)
    }
}

/// `hex colour`: `#RRGGBB` with exactly six hexadecimal digits, optionally
/// followed by whitespace and a percentage alpha.
pub open spec fn spec_hex_color(s: Seq<u8>, i: int) -> Option<(Color, int)> {
    if i < s.len() && s[i] == HASH_SIGN && i + 7 <= s.len() && is_hex_digit_byte(s[i + 1])
        && is_hex_digit_byte(s[i + 2]) && is_hex_digit_byte(s[i + 3]) && is_hex_digit_byte(
        s[i + 4],
    ) && is_hex_digit_byte(s[i + 5]) && is_hex_digit_byte(s[i + 6]) {
        let r = (hex_digit_value(s[i + 1]) * 16 + hex_digit_value(s[i + 2])) as u8;
        let g = (hex_digit_value(s[i + 3]) * 16 + hex_digit_value(s[i + 4])) as u8;
        let b = (hex_digit_value(s[i + 5]) * 16 + hex_digit_value(s[i + 6])) as u8;
        let (a, k) = spec_opt_alpha_suffix(s, i + 7);
        Some((Color { r, g, b, a }, k))
    } else {
        None
    }
}

/// `variable value`: a variable identifier optionally followed by a
/// percentage opacity override.
pub open spec fn spec_variable_value(s: Seq<u8>, i: int) -> Option<(SpecVariable, int)> {
    match spec_variable_identifier(s, i) {
        Some((ident, j)) => {
            let (a, k) = spec_opt_alpha_suffix(s, j);
            Some((SpecVariable { identifier: ident, opacity: a }, k))
        },
        None => None,
    }
}

/// A decimal alpha literal for `rgba(...)`: `D+[.D*]` or `.D+`, evaluated
/// in thousandths with the fractional part truncated after three digits;
/// values above 1 are rejected.
pub open spec fn spec_float_alpha(s: Seq<u8>, i: int) -> Option<(u16, int)> {
    let k = spec_digit_end(s, i);
    if k > i {
        if k < s.len() && s[k] == DOT {
            let f = spec_digit_end(s, k + 1);
            let th = spec_dec_val(s, i, k) * 1000 + spec_frac3(s, k + 1, f);
            if th <= 1000 {
                Some((th as u16, f))
            } else {
                None
            }
        } else {
            let th = spec_dec_val(s, i, k) * 1000;
            if th <= 1000 {
                Some((th as u16, k))
            } else {
                None
            }
        }
    } else if i < s.len() && s[i] == DOT {
        let f = spec_digit_end(s, i + 1);
        if f > i + 1 && spec_frac3(s, i + 1, f) <= 1000 {
            Some((spec_frac3(s, i + 1, f) as u16, f))
        } else {
            None
        }
    } else {
        None
    }
}

/// Value in thousandths of the first three digits of the run `s[a..b)`,
/// missing digits counting as zero.
pub open spec fn spec_frac3(s: Seq<u8>, a: int, b: int) -> int {
    (if a < b {
        (s[a] - DIGIT_ZERO) * 100
    } else {
        0
    }) + (if a + 1 < b {
        (s[a + 1] - DIGIT_ZERO) * 10
    } else {
        0
    }) + (if a + 2 < b {
        (s[a + 2] - DIGIT_ZERO) as int
    } else {
        0
    })
}

/// One `rgba` channel: optional spaces then a decimal integer 0-255.
pub open spec fn spec_u8_channel(s: Seq<u8>, i: int) -> Option<(u8, int)> {
    let j = spec_skip_space(s, i);
    let k = spec_digit_end(s, j);
    if k > j && spec_dec_val(s, j, k) <= 255 {
        Some((spec_dec_val(s, j, k) as u8, k))
    } else {
        None
    }
}

/// `rgba colour`: `rgba` then, in parentheses, three comma-separated
/// channels and a decimal alpha literal.
pub open spec fn spec_rgba_color(s: Seq<u8>, i: int) -> Option<(Color, int)> {
    if i + 4 <= s.len() && s[i] == LOWER_R && s[i + 1] == LOWER_G && s[i + 2] == LOWER_B && s[i + 3]
        == LOWER_A {
        let p0 = spec_skip_space(s, i + 4);
        if p0 < s.len() && s[p0] == LEFT_PAREN {
            match spec_u8_channel(s, p0 + 1) {
                Some((r, p1)) => {
                    let c1 = spec_skip_space(s, p1);
                    if c1 < s.len() && s[c1] == COMMA {
                        match spec_u8_channel(s, c1 + 1) {
                            Some((g, p2)) => {
                                let c2 = spec_skip_space(s, p2);
                                if c2 < s.len() && s[c2] == COMMA {
                                    match spec_u8_channel(s, c2 + 1) {
                                        Some((b, p3)) => {
                                            let c3 = spec_skip_space(s, p3);
                                            if c3 < s.len() && s[c3] == COMMA {
                                                match spec_float_alpha(
                                                    s,
                                                    spec_skip_space(s, c3 + 1),
                                                ) {
                                                    Some((a, p4)) => {
                                                        let c4 = spec_skip_space(s, p4);
                                                        if c4 < s.len() && s[c4] == RIGHT_PAREN {
                                                            Some((Color { r, g, b, a }, c4 + 1))
                                                        } else {
                                                            None
                                                        }
                                                    },
                                                    None => None,
                                                }
                                            } else {
                                                None
                                            }
                                        },
                                        None => None,
                                    }
                                } else {
                                    None
                                }
                            },
                            None => None,
                        }
                    } else {
                        None
                    }
                },
                None => None,
            }
        } else {
            None
        }
    } else {
        None
    }
}

/// A colour set slot value: a hex colour, an `rgba` colour, or a variable
/// reference, after optional spaces.
pub open spec fn spec_colorset_value(s: Seq<u8>, i: int) -> Option<(SpecColorSetValue, int)> {
    let j = spec_skip_space(s, i);
    match spec_hex_color(s, j) {
        Some((c, k)) => Some((SpecColorSetValue::Color(c), k)),
        None => match spec_rgba_color(s, j) {
            Some((c, k)) => Some((SpecColorSetValue::Color(c), k)),
            None => match spec_variable_value(s, j) {
                Some((v, k)) => Some((SpecColorSetValue::Variable(v), k)),
                None => None,
            },
        },
    }
}

/// The byte sequence of the label `light`.
pub open spec fn light_label() -> Seq<u8> {
    seq![LOWER_L, LOWER_I, LOWER_G, LOWER_H, LOWER_T]
}

/// The byte sequence of the label `dark`.
pub open spec fn dark_label() -> Seq<u8> {
    seq![LOWER_D, LOWER_A, LOWER_R, LOWER_K]
}

/// Combines two labelled slots into a colour set: the labels must be
/// `light` and `dark` in either order, anything else is rejected.
pub open spec fn spec_colorset_from_declarations(
    d1: SpecDeclaration<SpecColorSetValue>,
    d2: SpecDeclaration<SpecColorSetValue>,
) -> Option<SpecColorSet> {
    if d1.identifier == light_label() && d2.identifier == dark_label() {
        Some(SpecColorSet { light: d1.value, dark: d2.value })
    } else if d1.identifier == dark_label() && d2.identifier == light_label() {
        Some(SpecColorSet { light: d2.value, dark: d1.value })
    } else {
        None
    }
}

/// Converts a colour set slot value into a general value.
pub open spec fn spec_value_of_slot(v: SpecColorSetValue) -> SpecValue {
    match v {
        SpecColorSetValue::Variable(x) => SpecValue::Variable(x),
        SpecColorSetValue::Color(c) => SpecValue::Color(c),
    }
}

/// A labelled slot inside a colour set literal: `identifier: <slot value>`.
pub open spec fn spec_cs_declaration(s: Seq<u8>, i: int) -> Option<
    (SpecDeclaration<SpecColorSetValue>, int),
> {
    match spec_identifier(s, i) {
        Some((id, j)) => {
            let c = spec_skip_space(s, j);
            if c < s.len() && s[c] == COLON {
                match spec_colorset_value(s, c + 1) {
                    Some((v, k)) => Some((SpecDeclaration { identifier: id, value: v }, k)),
                    None => None,
                }
            } else {
                None
            }
        },
        None => None,
    }
}

/// `colour set`: `( <decl>, <decl> )`; the two labels must be `light` and
/// `dark` in either order, anything else is the label error.
pub open spec fn spec_colorset(s: Seq<u8>, i: int) -> SpecParsed<SpecColorSet> {
    if i < s.len() && s[i] == LEFT_PAREN {
        match spec_cs_declaration(s, i + 1) {
            Some((d1, p1)) => {
                let c = spec_skip_space(s, p1);
                if c < s.len() && s[c] == COMMA {
                    match spec_cs_declaration(s, c + 1) {
                        Some((d2, p2)) => {
                            if p2 < s.len() && s[p2] == RIGHT_PAREN {
                                match spec_colorset_from_declarations(d1, d2) {
                                    Some(cs) => SpecParsed::Parsed(cs, p2 + 1),
                                    None => SpecParsed::Labels(d1.identifier, d2.identifier),
                                }
                            } else {
                                SpecParsed::Fail
                            }
                        },
                        None => SpecParsed::Fail,
                    }
                } else {
                    SpecParsed::Fail
                }
            },
            None => SpecParsed::Fail,
        }
    } else {
        SpecParsed::Fail
    }
}

/// `value`: a slot value (colour literal or variable reference) or a colour
/// set literal.
pub open spec fn spec_value(s: Seq<u8>, i: int) -> SpecParsed<SpecValue> {
    let j = spec_skip_space(s, i);
    match spec_colorset_value(s, j) {
        Some((v, k)) => SpecParsed::Parsed(spec_value_of_slot(v), k),
        None => match spec_colorset(s, j) {
            SpecParsed::Parsed(cs, k) => SpecParsed::Parsed(SpecValue::ColorSet(cs), k),
            SpecParsed::Labels(a, b) => SpecParsed::Labels(a, b),
            SpecParsed::Fail => SpecParsed::Fail,
        },
    }
}

/// `declaration`: `identifier : value`.
pub open spec fn spec_declaration(s: Seq<u8>, i: int) -> SpecParsed<SpecDeclaration<SpecValue>> {
    match spec_identifier(s, i) {
        Some((id, j)) => {
            let c = spec_skip_space(s, j);
            if c < s.len() && s[c] == COLON {
                match spec_value(s, c + 1) {
                    SpecParsed::Parsed(v, k) => SpecParsed::Parsed(
                        SpecDeclaration { identifier: id, value: v },
                        k,
                    ),
                    SpecParsed::Labels(a, b) => SpecParsed::Labels(a, b),
                    SpecParsed::Fail => SpecParsed::Fail,
                }
            } else {
                SpecParsed::Fail
            }
        },
        None => SpecParsed::Fail,
    }
}

/// `variable declaration`: `$identifier : value`.
pub open spec fn spec_variable_declaration(s: Seq<u8>, i: int) -> SpecParsed<
    SpecDeclaration<SpecValue>,
> {
    match spec_variable_identifier(s, i) {
        Some((id, j)) => {
            let c = spec_skip_space(s, j);
            if c < s.len() && s[c] == COLON {
                match spec_value(s, c + 1) {
                    SpecParsed::Parsed(v, k) => SpecParsed::Parsed(
                        SpecDeclaration { identifier: id, value: v },
                        k,
                    ),
                    SpecParsed::Labels(a, b) => SpecParsed::Labels(a, b),
                    SpecParsed::Fail => SpecParsed::Fail,
                }
            } else {
                SpecParsed::Fail
            }
        },
        None => SpecParsed::Fail,
    }
}

/// Position after the comment body (everything up to a line break or the
/// end of the input) starting at `i`.
pub open spec fn spec_comment_body_end(s: Seq<u8>, i: int) -> int
    decreases s.len() - i,
{
    if 0 <= i < s.len() && s[i] != NEWLINE {
        spec_comment_body_end(s, i + 1)
    } else {
        i
    }
}

/// `line delimiter`: optional spaces, an optional trailing comment, a
/// mandatory line break, then any blank space and comment lines.
pub open spec fn spec_line_delimiter(s: Seq<u8>, i: int) -> Option<int> {
    let j = spec_skip_space(s, i);
    let j2 = if j + 1 < s.len() && s[j] == SLASH && s[j + 1] == SLASH {
        spec_comment_body_end(s, j + 2)
    } else {
        j
    };
    if j2 < s.len() && s[j2] == NEWLINE {
        Some(spec_skip_blank(s, j2 + 1))
    } else {
        None
    }
}

// ---------------------------------------------------------------------------
// Executable lexical layer
// ---------------------------------------------------------------------------

/// Copies `s[a..b)` into a fresh vector.
fn copy_range(s: &[u8], a: usize, b: usize) -> (r: Vec<u8>)
    requires
        a <= b <= s@.len(),
    ensures
        r@ == s@.subrange(a as int, b as int),
{
    let mut v: Vec<u8> = Vec::new();
    let mut j: usize = a;
    while j < b
        invariant
            a <= j <= b <= s@.len(),
            v@ == s@.subrange(a as int, j as int),
        decreases b - j,
    {
        v.push(s[j]);
        proof {
            assert(v@ =~= s@.subrange(a as int, j + 1));
        }
        j = j + 1;
    }
    v
}

/// Skips spaces and tabs.
fn skip_space(s: &[u8], i: usize) -> (r: usize)
    requires
        i <= s@.len(),
    ensures
        r == spec_skip_space(s@, i as int),
        i <= r <= s@.len(),
{
    let mut j: usize = i;
    while j < s.len() && (s[j] == SPACE || s[j] == TAB)
        invariant
            i <= j <= s@.len(),
            spec_skip_space(s@, i as int) == spec_skip_space(s@, j as int),
        decreases s@.len() - j,
    {
        j = j + 1;
    }
    j
}

/// Skips whitespace, line breaks and whole `//` comments.
fn skip_blank(s: &[u8], i: usize) -> (r: usize)
    requires
        i <= s@.len(),
    ensures
        r == spec_skip_blank(s@, i as int),
        i <= r <= s@.len(),
{
    let mut j: usize = i;
    loop
        invariant
            i <= j <= s@.len(),
            spec_skip_blank(s@, i as int) == spec_skip_blank(s@, j as int),
        ensures
            i <= j <= s@.len(),
            spec_skip_blank(s@, i as int) == j,
        decreases s@.len() - j,
    {
        if j < s.len() && (s[j] == SPACE || s[j] == TAB || s[j] == CARRIAGE_RETURN || s[j]
            == NEWLINE) {
            j = j + 1;
        } else if j < s.len() && s[j] == SLASH && j + 1 < s.len() && s[j + 1] == SLASH {
            let ghost j0: int = j as int;
            j = j + 2;
            while j < s.len() && s[j] != NEWLINE
                invariant
                    i <= j <= s@.len(),
                    j0 + 2 <= j,
                    spec_skip_blank(s@, i as int) == spec_skip_in_comment(s@, j as int),
                decreases s@.len() - j,
            {
                j = j + 1;
            }
        } else {
            break;
        }
    }
    j
}

/// Longest run of decimal digits from `i`, together with its numeric value
/// capped at `cap + 1` (so any value above `cap` is reported as `cap + 1`).
fn digit_run_value(s: &[u8], i: usize, cap: u32) -> (r: (usize, u32))
    requires
        i <= s@.len(),
        cap <= 100_000,
    ensures
        r.0 == spec_digit_end(s@, i as int),
        i <= r.0 <= s@.len(),
        spec_dec_val(s@, i as int, r.0 as int) <= cap ==> r.1 == spec_dec_val(
            s@,
            i as int,
            r.0 as int,
        ),
        spec_dec_val(s@, i as int, r.0 as int) > cap ==> r.1 == cap + 1,
{
    let mut j: usize = i;
    let mut acc: u32 = 0;
    while j < s.len() && DIGIT_ZERO <= s[j] && s[j] <= DIGIT_NINE
        invariant
            i <= j <= s@.len(),
            cap <= 100_000,
            spec_digit_end(s@, i as int) == spec_digit_end(s@, j as int),
            spec_dec_val(s@, i as int, j as int) <= cap ==> acc == spec_dec_val(
                s@,
                i as int,
                j as int,
            ),
            spec_dec_val(s@, i as int, j as int) > cap ==> acc == cap + 1,
        decreases s@.len() - j,
    {
        let d: u32 = (s[j] - DIGIT_ZERO) as u32;
        proof {
            assert(spec_dec_val(s@, i as int, j + 1) == spec_dec_val(s@, i as int, j as int) * 10
                + d);
        }
        if acc > cap {
            proof {
                assert(spec_dec_val(s@, i as int, j as int) * 10 >= spec_dec_val(
                    s@,
                    i as int,
                    j as int,
                ));
            }
        } else {
            let t: u32 = acc * 10 + d;
            if t > cap {
                acc = cap + 1;
            } else {
                acc = t;
            }
        }
        j = j + 1;
    }
    (j, acc)
}

/// `identifier`: optional spaces, then one or more alphanumeric bytes.
pub fn identifier(s: &[u8], i: usize) -> (r: Option<(Vec<u8>, usize)>)
    requires
        i <= s@.len(),
    ensures
        match r {
            Some((v, k)) => spec_identifier(s@, i as int) == Some((v@, k as int)) && i < k
                <= s@.len(),
            None => spec_identifier(s@, i as int) is None,
        },
{
    let j = skip_space(s, i);
    let mut k: usize = j;
    while k < s.len() && (DIGIT_ZERO <= s[k] && s[k] <= DIGIT_NINE || LOWER_A <= s[k] && s[k]
        <= LOWER_Z || UPPER_A <= s[k] && s[k] <= UPPER_Z)
        invariant
            j <= k <= s@.len(),
            spec_alnum_end(s@, j as int) == spec_alnum_end(s@, k as int),
        decreases s@.len() - k,
    {
        k = k + 1;
    }
    if k > j {
        Some((copy_range(s, j, k), k))
    } else {
        None
    }
}

/// `variable identifier`: optional spaces, a `$` sigil, then an identifier.
pub fn variable_identifier(s: &[u8], i: usize) -> (r: Option<(Vec<u8>, usize)>)
    requires
        i <= s@.len(),
    ensures
        match r {
            Some((v, k)) => spec_variable_identifier(s@, i as int) == Some((v@, k as int)) && i < k
                <= s@.len(),
            None => spec_variable_identifier(s@, i as int) is None,
        },
{
    let j = skip_space(s, i);
    if j < s.len() && s[j] == DOLLAR_SIGN {
        let mut k: usize = j + 1;
        while k < s.len() && (DIGIT_ZERO <= s[k] && s[k] <= DIGIT_NINE || LOWER_A <= s[k] && s[k]
            <= LOWER_Z || UPPER_A <= s[k] && s[k] <= UPPER_Z)
            invariant
                j + 1 <= k <= s@.len(),
                spec_alnum_end(s@, j + 1) == spec_alnum_end(s@, k as int),
            decreases s@.len() - k,
        {
            k = k + 1;
        }
        if k > j + 1 {
            Some((copy_range(s, j + 1, k), k))
        } else {
            None
        }
    } else {
        None
    }
}

/// `alpha value`: a percentage `NN%` (0-100), yielding thousandths.
fn alpha_value(s: &[u8], i: usize) -> (r: Option<(u16, usize)>)
    requires
        i <= s@.len(),
    ensures
        match r {
            Some((a, k)) => spec_alpha_value(s@, i as int) == Some((a, k as int)) && i < k
                <= s@.len() && a <= 1000,
            None => spec_alpha_value(s@, i as int) is None,
        },
{
    let (k, v) = digit_run_value(s, i, 100);
    if k > i && k < s.len() && s[k] == PERCENT_SIGN && v <= 100 {
        Some(((v as u16) * 10, k + 1))
    } else {
        None
    }
}

/// Optional ` NN%` suffix: at least one space then an alpha value, or
/// nothing (alpha defaults to fully opaque).
fn opt_alpha_suffix(s: &[u8], i: usize) -> (r: (u16, usize))
    requires
        i <= s@.len(),
    ensures
        spec_opt_alpha_suffix(s@, i as int) == (r.0, r.1 as int),
        i <= r.1 <= s@.len(),
        r.0 <= 1000,
{
    if i < s.len() && (s[i] == SPACE || s[i] == TAB) {
        let j = skip_space(s, i);
        match alpha_value(s, j) {
            Some((a, k)) => (a, k),
            None => (1000u16, i),
        }
    } else {
        (1000u16, i)
    }
}

/// Whether `v` is exactly the label `light`.
fn is_light_label(v: &Vec<u8>) -> (r: bool)
    ensures
        r == (v@ == light_label()),
{
    let ok = v.len() == 5 && v[0] == LOWER_L && v[1] == LOWER_I && v[2] == LOWER_G && v[3]
        == LOWER_H && v[4] == LOWER_T;
    proof {
        if ok {
            assert(v@ =~= light_label());
        } else {
            assert(v@ != light_label());
        }
    }
    ok
}

/// Whether `v` is exactly the label `dark`.
fn is_dark_label(v: &Vec<u8>) -> (r: bool)
    ensures
        r == (v@ == dark_label()),
{
    let ok = v.len() == 4 && v[0] == LOWER_D && v[1] == LOWER_A && v[2] == LOWER_R && v[3]
        == LOWER_K;
    proof {
        if ok {
            assert(v@ =~= dark_label());
        } else {
            assert(v@ != dark_label());
        }
    }
    ok
}

/// A grammar failure at `offset` inside the rule `ctx`.
fn grammar_err(offset: usize, ctx: ParseContext) -> (r: ParseFail)
    ensures
        r is Grammar,
{
    let mut contexts: Vec<ParseContext> = Vec::new();
    contexts.push(ctx);
    ParseFail::Grammar { offset, contexts }
}

/// Records `ctx` as one more enclosing rule of a failure.
fn push_context(f: ParseFail, ctx: ParseContext) -> (r: ParseFail)
    ensures
        (r is Grammar) == (f is Grammar),
        f is ColorSetLabels ==> r == f,
{
    match f {
        ParseFail::Grammar { offset, contexts } => {
            let mut c = contexts;
            c.push(ctx);
            ParseFail::Grammar { offset, contexts: c }
        },
        other => other,
    }
}

/// Converts a colour set slot value into a general value.
fn slot_to_value(v: ColorSetValue) -> (r: Value)
    ensures
        r@ == spec_value_of_slot(v@),
{
    match v {
        ColorSetValue::Variable(x) => Value::Variable(x),
        ColorSetValue::Color(c) => Value::Color(c),
    }
}

/// A labelled slot inside a colour set literal.
fn cs_declaration(s: &[u8], i: usize) -> (r: Option<(Declaration<ColorSetValue>, usize)>)
    requires
        i <= s@.len(),
    ensures
        match r {
            Some((d, k)) => spec_cs_declaration(s@, i as int) == Some((d@, k as int)) && i < k
                <= s@.len(),
            None => spec_cs_declaration(s@, i as int) is None,
        },
{
    match identifier(s, i) {
        Some((id, j)) => {
            let c = skip_space(s, j);
            if c < s.len() && s[c] == COLON {
                match colorset_value(s, c + 1) {
                    Some((v, k)) => Some((Declaration { identifier: id, value: v }, k)),
                    None => None,
                }
            } else {
                None
            }
        },
        None => None,
    }
}

/// `colour set`: `( <decl>, <decl> )` whose labels must be `light` and
/// `dark` in either order.
pub fn colorset(s: &[u8], i: usize) -> (r: Result<(ColorSet, usize), ParseFail>)
    requires
        i <= s@.len(),
    ensures
        match r {
            Ok((cs, k)) => spec_colorset(s@, i as int) == SpecParsed::Parsed(cs@, k as int) && i < k
                <= s@.len(),
            Err(e) => match e {
                ParseFail::Grammar { .. } => spec_colorset(s@, i as int) is Fail,
                ParseFail::ColorSetLabels { first, second } => spec_colorset(s@, i as int)
                    == SpecParsed::<SpecColorSet>::Labels(first@, second@),
            },
        },
{
    if i < s.len() && s[i] == LEFT_PAREN {
        match cs_declaration(s, i + 1) {
            Some((d1, p1)) => {
                let c = skip_space(s, p1);
                if c < s.len() && s[c] == COMMA {
                    match cs_declaration(s, c + 1) {
                        Some((d2, p2)) => {
                            if p2 < s.len() && s[p2] == RIGHT_PAREN {
                                if is_light_label(&d1.identifier) && is_dark_label(
                                    &d2.identifier,
                                ) {
                                    Ok((ColorSet { light: d1.value, dark: d2.value }, p2 + 1))
                                } else if is_dark_label(&d1.identifier) && is_light_label(
                                    &d2.identifier,
                                ) {
                                    Ok((ColorSet { light: d2.value, dark: d1.value }, p2 + 1))
                                } else {
                                    Err(
                                        ParseFail::ColorSetLabels {
                                            first: d1.identifier,
                                            second: d2.identifier,
                                        },
                                    )
                                }
                            } else {
                                Err(grammar_err(p2, ParseContext::ColorSet))
                            }
                        },
                        None => Err(grammar_err(c + 1, ParseContext::ColorSet)),
                    }
                } else {
                    Err(grammar_err(c, ParseContext::ColorSet))
                }
            },
            None => Err(grammar_err(i + 1, ParseContext::ColorSet)),
        }
    } else {
        Err(grammar_err(i, ParseContext::ColorSet))
    }
}

/// `value`: a colour literal, variable reference, or colour set literal.
fn value(s: &[u8], i: usize) -> (r: Result<(Value, usize), ParseFail>)
    requires
        i <= s@.len(),
    ensures
        match r {
            Ok((v, k)) => spec_value(s@, i as int) == SpecParsed::Parsed(v@, k as int) && i < k
                <= s@.len(),
            Err(e) => match e {
                ParseFail::Grammar { .. } => spec_value(s@, i as int) is Fail,
                ParseFail::ColorSetLabels { first, second } => spec_value(s@, i as int)
                    == SpecParsed::<SpecValue>::Labels(first@, second@),
            },
        },
{
    let j = skip_space(s, i);
    match colorset_value(s, j) {
        Some((v, k)) => Ok((slot_to_value(v), k)),
        None => match colorset(s, j) {
            Ok((cs, k)) => Ok((Value::ColorSet(cs), k)),
            Err(e) => Err(e),
        },
    }
}

/// `declaration`: `identifier : value`.
pub fn declaration(s: &[u8], i: usize) -> (r: Result<(Declaration<Value>, usize), ParseFail>)
    requires
        i <= s@.len(),
    ensures
        match r {
            Ok((d, k)) => spec_declaration(s@, i as int) == SpecParsed::Parsed(d@, k as int) && i
                < k <= s@.len(),
            Err(e) => match e {
                ParseFail::Grammar { .. } => spec_declaration(s@, i as int) is Fail,
                ParseFail::ColorSetLabels { first, second } => spec_declaration(s@, i as int)
                    == SpecParsed::<SpecDeclaration<SpecValue>>::Labels(first@, second@),
            },
        },
{
    match identifier(s, i) {
        Some((id, j)) => {
            let c = skip_space(s, j);
            if c < s.len() && s[c] == COLON {
                match value(s, c + 1) {
                    Ok((v, k)) => Ok((Declaration { identifier: id, value: v }, k)),
                    Err(e) => Err(push_context(e, ParseContext::Declaration)),
                }
            } else {
                Err(grammar_err(c, ParseContext::Declaration))
            }
        },
        None => Err(grammar_err(i, ParseContext::Identifier)),
    }
}

/// `variable declaration`: `$identifier : value`.
pub fn variable(s: &[u8], i: usize) -> (r: Result<(Declaration<Value>, usize), ParseFail>)
    requires
        i <= s@.len(),
    ensures
        match r {
            Ok((d, k)) => spec_variable_declaration(s@, i as int) == SpecParsed::Parsed(
                d@,
                k as int,
            ) && i < k <= s@.len(),
            Err(e) => match e {
                ParseFail::Grammar { .. } => spec_variable_declaration(s@, i as int) is Fail,
                ParseFail::ColorSetLabels { first, second } => spec_variable_declaration(
                    s@,
                    i as int,
                ) == SpecParsed::<SpecDeclaration<SpecValue>>::Labels(first@, second@),
            },
        },
{
    match variable_identifier(s, i) {
        Some((id, j)) => {
            let c = skip_space(s, j);
            if c < s.len() && s[c] == COLON {
                match value(s, c + 1) {
                    Ok((v, k)) => Ok((Declaration { identifier: id, value: v }, k)),
                    Err(e) => Err(push_context(e, ParseContext::Variable)),
                }
            } else {
                Err(grammar_err(c, ParseContext::Variable))
            }
        },
        None => Err(grammar_err(i, ParseContext::VariableIdentifier)),
    }
}

/// `line delimiter`: optional spaces, an optional trailing comment, a line
/// break, then blank space and comment lines.
fn line_delimiter(s: &[u8], i: usize) -> (r: Option<usize>)
    requires
        i <= s@.len(),
    ensures
        match r {
            Some(k) => spec_line_delimiter(s@, i as int) == Some(k as int) && i < k <= s@.len(),
            None => spec_line_delimiter(s@, i as int) is None,
        },
{
    let j = skip_space(s, i);
    let mut j2: usize = j;
    if j < s.len() && s[j] == SLASH && j + 1 < s.len() && s[j + 1] == SLASH {
        j2 = j + 2;
        while j2 < s.len() && s[j2] != NEWLINE
            invariant
                j + 2 <= j2 <= s@.len(),
                spec_comment_body_end(s@, j + 2) == spec_comment_body_end(s@, j2 as int),
            decreases s@.len() - j2,
        {
            j2 = j2 + 1;
        }
    }
    if j2 < s.len() && s[j2] == NEWLINE {
        Some(skip_blank(s, j2 + 1))
    } else {
        None
    }
}

/// Numeric value of one hexadecimal digit.
fn hex_val(c: u8) -> (r: u8)
    requires
        is_hex_digit_byte(c),
    ensures
        r == hex_digit_value(c),
        r <= 15,
{
    if DIGIT_ZERO <= c && c <= DIGIT_NINE {
        c - DIGIT_ZERO
    } else if LOWER_A <= c && c <= LOWER_F {
        c - LOWER_A + 10
    } else {
        c - UPPER_A + 10
    }
}

/// Whether a byte is a hexadecimal digit.
pub fn is_hex_digit(c: u8) -> (r: bool)
    ensures
        r == is_hex_digit_byte(c),
{
    DIGIT_ZERO <= c && c <= DIGIT_NINE || LOWER_A <= c && c <= LOWER_F || UPPER_A <= c && c
        <= UPPER_F
}

/// `hex colour`: `#RRGGBB` with an optional percentage alpha suffix.
fn hex_color(s: &[u8], i: usize) -> (r: Option<(Color, usize)>)
    requires
        i <= s@.len(),
    ensures
        match r {
            Some((c, k)) => spec_hex_color(s@, i as int) == Some((c, k as int)) && i < k
                <= s@.len() && c.valid(),
            None => spec_hex_color(s@, i as int) is None,
        },
{
    if i < s.len() && s[i] == HASH_SIGN && s.len() - i >= 7 {
        let d1 = s[i + 1];
        let d2 = s[i + 2];
        let d3 = s[i + 3];
        let d4 = s[i + 4];
        let d5 = s[i + 5];
        let d6 = s[i + 6];
        if is_hex_digit(d1) && is_hex_digit(d2) && is_hex_digit(d3) && is_hex_digit(d4)
            && is_hex_digit(d5) && is_hex_digit(d6) {
            let red = hex_val(d1) * 16 + hex_val(d2);
            let green = hex_val(d3) * 16 + hex_val(d4);
            let blue = hex_val(d5) * 16 + hex_val(d6);
            let (a, k) = opt_alpha_suffix(s, i + 7);
            Some((Color { r: red, g: green, b: blue, a }, k))
        } else {
            None
        }
    } else {
        None
    }
}

/// A decimal alpha literal, in thousandths (values above 1 are rejected).
fn float_alpha(s: &[u8], i: usize) -> (r: Option<(u16, usize)>)
    requires
        i <= s@.len(),
    ensures
        match r {
            Some((a, k)) => spec_float_alpha(s@, i as int) == Some((a, k as int)) && i < k
                <= s@.len() && a <= 1000,
            None => spec_float_alpha(s@, i as int) is None,
        },
{
    let (k, v) = digit_run_value(s, i, 1);
    if k > i {
        if k < s.len() && s[k] == DOT {
            let f = frac3_digits(s, k + 1);
            if v <= 1 {
                let th: u16 = (v as u16) * 1000 + f.0;
                if th <= 1000 {
                    return Some((th, f.1));
                }
            }
            None
        } else {
            if v <= 1 {
                Some(((v as u16) * 1000, k))
            } else {
                None
            }
        }
    } else if i < s.len() && s[i] == DOT {
        let f = frac3_digits(s, i + 1);
        if f.1 > i + 1 {
            Some((f.0, f.1))
        } else {
            None
        }
    } else {
        None
    }
}

/// Scans a digit run and returns the value in thousandths of its first
/// three digits, together with the end of the whole run.
fn frac3_digits(s: &[u8], a: usize) -> (r: (u16, usize))
    requires
        a <= s@.len(),
    ensures
        r.1 == spec_digit_end(s@, a as int),
        a <= r.1 <= s@.len(),
        r.0 == spec_frac3(s@, a as int, r.1 as int),
        r.0 < 1000,
{
    let mut j: usize = a;
    while j < s.len() && DIGIT_ZERO <= s[j] && s[j] <= DIGIT_NINE
        invariant
            a <= j <= s@.len(),
            spec_digit_end(s@, a as int) == spec_digit_end(s@, j as int),
            forall|m: int| a <= m < j ==> is_digit_byte(#[trigger] s@[m]),
        decreases s@.len() - j,
    {
        j = j + 1;
    }
    proof {
        assert(spec_digit_end(s@, a as int) == j);
    }
    let mut th: u16 = 0;
    if j > a {
        th = ((s[a] - DIGIT_ZERO) as u16) * 100;
    }
    if j - a > 1 {
        th = th + ((s[a + 1] - DIGIT_ZERO) as u16) * 10;
    }
    if j - a > 2 {
        th = th + ((s[a + 2] - DIGIT_ZERO) as u16);
    }
    (th, j)
}

/// One `rgba` channel: a decimal integer 0-255 after optional spaces.
fn u8_channel(s: &[u8], i: usize) -> (r: Option<(u8, usize)>)
    requires
        i <= s@.len(),
    ensures
        match r {
            Some((v, k)) => spec_u8_channel(s@, i as int) == Some((v, k as int)) && i < k
                <= s@.len(),
            None => spec_u8_channel(s@, i as int) is None,
        },
{
    let j = skip_space(s, i);
    let (k, v) = digit_run_value(s, j, 255);
    if k > j && v <= 255 {
        Some((v as u8, k))
    } else {
        None
    }
}

/// `rgba colour`: `rgba(R, G, B, A)`.
fn rgba_color(s: &[u8], i: usize) -> (r: Option<(Color, usize)>)
    requires
        i <= s@.len(),
    ensures
        match r {
            Some((c, k)) => spec_rgba_color(s@, i as int) == Some((c, k as int)) && i < k
                <= s@.len() && c.valid(),
            None => spec_rgba_color(s@, i as int) is None,
        },
{
    if s.len() - i >= 4 && s[i] == LOWER_R && s[i + 1] == LOWER_G && s[i + 2] == LOWER_B && s[i + 3]
        == LOWER_A {
        let p0 = skip_space(s, i + 4);
        if p0 < s.len() && s[p0] == LEFT_PAREN {
            if let Some((red, p1)) = u8_channel(s, p0 + 1) {
                let c1 = skip_space(s, p1);
                if c1 < s.len() && s[c1] == COMMA {
                    if let Some((green, p2)) = u8_channel(s, c1 + 1) {
                        let c2 = skip_space(s, p2);
                        if c2 < s.len() && s[c2] == COMMA {
                            if let Some((blue, p3)) = u8_channel(s, c2 + 1) {
                                let c3 = skip_space(s, p3);
                                if c3 < s.len() && s[c3] == COMMA {
                                    let q = skip_space(s, c3 + 1);
                                    if let Some((a, p4)) = float_alpha(s, q) {
                                        let c4 = skip_space(s, p4);
                                        if c4 < s.len() && s[c4] == RIGHT_PAREN {
                                            return Some(
                                                (Color { r: red, g: green, b: blue, a }, c4 + 1),
                                            );
                                        }
                                    }
                                }
                            }
                        }
                    }
                }
            }
        }
        None
    } else {
        None
    }
}

/// `variable value`: a variable reference with an optional opacity
/// override.
pub fn variable_value(s: &[u8], i: usize) -> (r: Option<(Variable, usize)>)
    requires
        i <= s@.len(),
    ensures
        match r {
            Some((v, k)) => spec_variable_value(s@, i as int) == Some((v@, k as int)) && i < k
                <= s@.len() && v.opacity <= 1000,
            None => spec_variable_value(s@, i as int) is None,
        },
{
    match variable_identifier(s, i) {
        Some((ident, j)) => {
            let (a, k) = opt_alpha_suffix(s, j);
            Some((Variable { identifier: ident, opacity: a }, k))
        },
        None => None,
    }
}

/// A colour set slot value: hex colour, `rgba` colour, or variable
/// reference.
fn colorset_value(s: &[u8], i: usize) -> (r: Option<(ColorSetValue, usize)>)
    requires
        i <= s@.len(),
    ensures
        match r {
            Some((v, k)) => spec_colorset_value(s@, i as int) == Some((v@, k as int)) && i < k
                <= s@.len(),
            None => spec_colorset_value(s@, i as int) is None,
        },
{
    let j = skip_space(s, i);
    if let Some((c, k)) = hex_color(s, j) {
        return Some((ColorSetValue::Color(c), k));
    }
    if let Some((c, k)) = rgba_color(s, j) {
        return Some((ColorSetValue::Color(c), k));
    }
    if let Some((v, k)) = variable_value(s, j) {
        return Some((ColorSetValue::Variable(v), k));
    }
    None
}

// ---------------------------------------------------------------------------
// Rule sets and documents
// ---------------------------------------------------------------------------

/// Appends `acc` in front of the items of a parse outcome.
pub open spec fn spec_cat_rs(
    acc: Seq<SpecRuleSetItem>,
    o: SpecParsed<Seq<SpecRuleSetItem>>,
) -> SpecParsed<Seq<SpecRuleSetItem>> {
    match o {
        SpecParsed::Parsed(rest, e) => SpecParsed::Parsed(acc + rest, e),
        SpecParsed::Labels(a, b) => SpecParsed::Labels(a, b),
        SpecParsed::Fail => SpecParsed::Fail,
    }
}

/// Appends `acc` in front of the items of a parse outcome.
pub open spec fn spec_cat_doc(
    acc: Seq<SpecDocumentItem>,
    o: SpecParsed<Seq<SpecDocumentItem>>,
) -> SpecParsed<Seq<SpecDocumentItem>> {
    match o {
        SpecParsed::Parsed(rest, e) => SpecParsed::Parsed(acc + rest, e),
        SpecParsed::Labels(a, b) => SpecParsed::Labels(a, b),
        SpecParsed::Fail => SpecParsed::Fail,
    }
}

proof fn lemma_cat_rs_push(
    acc: Seq<SpecRuleSetItem>,
    x: SpecRuleSetItem,
    o: SpecParsed<Seq<SpecRuleSetItem>>,
)
    ensures
        spec_cat_rs(acc, spec_cat_rs(seq![x], o)) == spec_cat_rs(acc.push(x), o),
{
    match o {
        SpecParsed::Parsed(rest, e) => {
            assert(acc + (seq![x] + rest) =~= acc.push(x) + rest);
        },
        _ => {},
    }
}

proof fn lemma_cat_doc_push(
    acc: Seq<SpecDocumentItem>,
    x: SpecDocumentItem,
    o: SpecParsed<Seq<SpecDocumentItem>>,
)
    ensures
        spec_cat_doc(acc, spec_cat_doc(seq![x], o)) == spec_cat_doc(acc.push(x), o),
{
    match o {
        SpecParsed::Parsed(rest, e) => {
            assert(acc + (seq![x] + rest) =~= acc.push(x) + rest);
        },
        _ => {},
    }
}

/// `rule set`: `identifier { ... }` whose body holds one item (declaration
/// or nested rule set) per line.
pub open spec fn spec_ruleset(s: Seq<u8>, i: int) -> SpecParsed<SpecRuleSet>
    decreases s.len() - i, 0int,
{
    match spec_identifier(s, i) {
        Some((id, j)) => {
            let b = spec_skip_space(s, j);
            if b < s.len() && s[b] == LEFT_BRACE {
                let p = spec_skip_blank(s, b + 1);
                if i < p && p <= s.len() {
                    match spec_ruleset_items(s, p) {
                        SpecParsed::Parsed(items, q) => {
                            let e = spec_skip_blank(s, q);
                            if e < s.len() && s[e] == RIGHT_BRACE {
                                SpecParsed::Parsed(SpecRuleSet { identifier: id, items }, e + 1)
                            } else {
                                SpecParsed::Fail
                            }
                        },
                        SpecParsed::Labels(a, b2) => SpecParsed::Labels(a, b2),
                        SpecParsed::Fail => SpecParsed::Fail,
                    }
                } else {
                    SpecParsed::Fail
                }
            } else {
                SpecParsed::Fail
            }
        },
        None => SpecParsed::Fail,
    }
}

/// The items of a rule set body: every item is followed by a line
/// delimiter; the list ends at the first position where no item starts.
pub open spec fn spec_ruleset_items(s: Seq<u8>, i: int) -> SpecParsed<Seq<SpecRuleSetItem>>
    decreases s.len() - i, 2int,
{
    match spec_ruleset_item(s, i) {
        SpecParsed::Fail => SpecParsed::Parsed(Seq::empty(), i),
        SpecParsed::Labels(a, b) => SpecParsed::Labels(a, b),
        SpecParsed::Parsed(item, k) => match spec_line_delimiter(s, k) {
            None => SpecParsed::Fail,
            Some(k2) => if i < k2 && k2 <= s.len() {
                spec_cat_rs(seq![item], spec_ruleset_items(s, k2))
            } else {
                SpecParsed::Fail
            },
        },
    }
}

/// One rule set body item: a nested rule set, or a declaration.
pub open spec fn spec_ruleset_item(s: Seq<u8>, i: int) -> SpecParsed<SpecRuleSetItem>
    decreases s.len() - i, 1int,
{
    match spec_ruleset(s, i) {
        SpecParsed::Parsed(r, k) => SpecParsed::Parsed(SpecRuleSetItem::RuleSet(r), k),
        SpecParsed::Labels(a, b) => SpecParsed::Labels(a, b),
        SpecParsed::Fail => match spec_declaration(s, i) {
            SpecParsed::Parsed(d, k) => SpecParsed::Parsed(SpecRuleSetItem::Declaration(d), k),
            SpecParsed::Labels(a, b) => SpecParsed::Labels(a, b),
            SpecParsed::Fail => SpecParsed::Fail,
        },
    }
}

/// One top-level item: a variable declaration, a rule set, or a plain
/// declaration, tried in that order.
pub open spec fn spec_document_item(s: Seq<u8>, i: int) -> SpecParsed<SpecDocumentItem> {
    match spec_variable_declaration(s, i) {
        SpecParsed::Parsed(d, k) => SpecParsed::Parsed(SpecDocumentItem::Variable(d), k),
        SpecParsed::Labels(a, b) => SpecParsed::Labels(a, b),
        SpecParsed::Fail => match spec_ruleset(s, i) {
            SpecParsed::Parsed(r, k) => SpecParsed::Parsed(SpecDocumentItem::RuleSet(r), k),
            SpecParsed::Labels(a, b) => SpecParsed::Labels(a, b),
            SpecParsed::Fail => match spec_declaration(s, i) {
                SpecParsed::Parsed(d, k) => SpecParsed::Parsed(
                    SpecDocumentItem::Declaration(d),
                    k,
                ),
                SpecParsed::Labels(a, b) => SpecParsed::Labels(a, b),
                SpecParsed::Fail => SpecParsed::Fail,
            },
        },
    }
}

/// The top-level items of a document, each followed by a line delimiter.
pub open spec fn spec_document_items(s: Seq<u8>, i: int) -> SpecParsed<Seq<SpecDocumentItem>>
    decreases s.len() - i,
{
    match spec_document_item(s, i) {
        SpecParsed::Fail => SpecParsed::Parsed(Seq::empty(), i),
        SpecParsed::Labels(a, b) => SpecParsed::Labels(a, b),
        SpecParsed::Parsed(item, k) => match spec_line_delimiter(s, k) {
            None => SpecParsed::Fail,
            Some(k2) => if i < k2 && k2 <= s.len() {
                spec_cat_doc(seq![item], spec_document_items(s, k2))
            } else {
                SpecParsed::Fail
            },
        },
    }
}

/// A whole document: the input followed by one final line break, leading
/// blank space, the top-level items, and nothing else.
pub open spec fn spec_parse_document(s: Seq<u8>) -> SpecParsed<Seq<SpecDocumentItem>> {
    let t = s.push(NEWLINE);
    let j = spec_skip_blank(t, 0);
    match spec_document_items(t, j) {
        SpecParsed::Parsed(items, k) => if k == t.len() {
            SpecParsed::Parsed(items, k)
        } else {
            SpecParsed::Fail
        },
        o => o,
    }
}

/// `rule set`: `identifier { ... }`.
pub fn ruleset(s: &[u8], i: usize) -> (r: Result<(RuleSet, usize), ParseFail>)
    requires
        i <= s@.len(),
    ensures
        match r {
            Ok((rs, k)) => spec_ruleset(s@, i as int) == SpecParsed::Parsed(rs@, k as int) && i < k
                <= s@.len(),
            Err(e) => match e {
                ParseFail::Grammar { .. } => spec_ruleset(s@, i as int) is Fail,
                ParseFail::ColorSetLabels { first, second } => spec_ruleset(s@, i as int)
                    == SpecParsed::<SpecRuleSet>::Labels(first@, second@),
            },
        },
    decreases s@.len() - i, 0int,
{
    match identifier(s, i) {
        Some((id, j)) => {
            let b = skip_space(s, j);
            if b < s.len() && s[b] == LEFT_BRACE {
                let p = skip_blank(s, b + 1);
                let mut items: Vec<RuleSetItem> = Vec::new();
                let mut cur: usize = p;
                loop
                    invariant
                        i < p <= cur <= s@.len(),
                        spec_ruleset_items(s@, p as int) == spec_cat_rs(
                            spec_ruleset_items_view(items@),
                            spec_ruleset_items(s@, cur as int),
                        ),
                        spec_identifier(s@, i as int) == Some((id@, j as int)),
                        i <= j <= s@.len(),
                        b == spec_skip_space(s@, j as int),
                        b < s@.len() && s@[b as int] == LEFT_BRACE,
                        p == spec_skip_blank(s@, b + 1),
                    ensures
                        i < p <= cur <= s@.len(),
                        spec_ruleset_items(s@, p as int) == SpecParsed::Parsed(
                            spec_ruleset_items_view(items@),
                            cur as int,
                        ),
                    decreases s@.len() - cur,
                {
                    let ghost items_snap = spec_ruleset_items_view(items@);
                    match ruleset_item(s, cur) {
                        Ok((it, k)) => {
                            match line_delimiter(s, k) {
                                Some(k2) => {
                                    proof {
                                        assert(spec_ruleset_items(s@, cur as int) == spec_cat_rs(
                                            seq![spec_ruleset_item_view(it)],
                                            spec_ruleset_items(s@, k2 as int),
                                        ));
                                        lemma_cat_rs_push(
                                            items_snap,
                                            spec_ruleset_item_view(it),
                                            spec_ruleset_items(s@, k2 as int),
                                        );
                                    }
                                    items.push(it);
                                    proof {
                                        assert(spec_ruleset_items_view(items@)
                                            =~= items_snap.push(spec_ruleset_item_view(
                                            items@[items@.len() - 1],
                                        )));
                                    }
                                    cur = k2;
                                },
                                None => {
                                    return Err(grammar_err(k, ParseContext::LineDelimiter));
                                },
                            }
                        },
                        Err(e) => {
                            match e {
                                ParseFail::ColorSetLabels { first, second } => {
                                    return Err(ParseFail::ColorSetLabels { first, second });
                                },
                                ParseFail::Grammar { .. } => {
                                    proof {
                                        assert(spec_ruleset_items(s@, cur as int)
                                            == SpecParsed::<Seq<SpecRuleSetItem>>::Parsed(
                                            Seq::empty(),
                                            cur as int,
                                        ));
                                        assert(spec_ruleset_items_view(items@) + Seq::empty()
                                            =~= spec_ruleset_items_view(items@));
                                    }
                                    break;
                                },
                            }
                        },
                    }
                }
                let e = skip_blank(s, cur);
                if e < s.len() && s[e] == RIGHT_BRACE {
                    Ok((RuleSet { identifier: id, items }, e + 1))
                } else {
                    Err(grammar_err(e, ParseContext::RuleSet))
                }
            } else {
                Err(grammar_err(b, ParseContext::RuleSet))
            }
        },
        None => Err(grammar_err(i, ParseContext::RuleSet)),
    }
}

/// One rule set body item: a nested rule set, or a declaration.
fn ruleset_item(s: &[u8], i: usize) -> (r: Result<(RuleSetItem, usize), ParseFail>)
    requires
        i <= s@.len(),
    ensures
        match r {
            Ok((it, k)) => spec_ruleset_item(s@, i as int) == SpecParsed::Parsed(it@, k as int)
                && i < k <= s@.len(),
            Err(e) => match e {
                ParseFail::Grammar { .. } => spec_ruleset_item(s@, i as int) is Fail,
                ParseFail::ColorSetLabels { first, second } => spec_ruleset_item(s@, i as int)
                    == SpecParsed::<SpecRuleSetItem>::Labels(first@, second@),
            },
        },
    decreases s@.len() - i, 1int,
{
    match ruleset(s, i) {
        Ok((rs, k)) => Ok((RuleSetItem::RuleSet(rs), k)),
        Err(e) => match e {
            ParseFail::ColorSetLabels { first, second } => Err(
                ParseFail::ColorSetLabels { first, second },
            ),
            ParseFail::Grammar { .. } => match declaration(s, i) {
                Ok((d, k)) => Ok((RuleSetItem::Declaration(d), k)),
                Err(e2) => Err(push_context(e2, ParseContext::RuleSet)),
            },
        },
    }
}

/// One top-level document item.
fn document_item(s: &[u8], i: usize) -> (r: Result<(DocumentItem, usize), ParseFail>)
    requires
        i <= s@.len(),
    ensures
        match r {
            Ok((it, k)) => spec_document_item(s@, i as int) == SpecParsed::Parsed(it@, k as int)
                && i < k <= s@.len(),
            Err(e) => match e {
                ParseFail::Grammar { .. } => spec_document_item(s@, i as int) is Fail,
                ParseFail::ColorSetLabels { first, second } => spec_document_item(s@, i as int)
                    == SpecParsed::<SpecDocumentItem>::Labels(first@, second@),
            },
        },
{
    match variable(s, i) {
        Ok((d, k)) => {
            return Ok((DocumentItem::Variable(d), k));
        },
        Err(e) => {
            if let ParseFail::ColorSetLabels { first, second } = e {
                return Err(ParseFail::ColorSetLabels { first, second });
            }
        },
    }
    match ruleset(s, i) {
        Ok((rs, k)) => {
            return Ok((DocumentItem::RuleSet(rs), k));
        },
        Err(e) => {
            if let ParseFail::ColorSetLabels { first, second } = e {
                return Err(ParseFail::ColorSetLabels { first, second });
            }
        },
    }
    match declaration(s, i) {
        Ok((d, k)) => Ok((DocumentItem::Declaration(d), k)),
        Err(e) => Err(push_context(e, ParseContext::Document)),
    }
}

/// Parses a whole document, all-or-nothing.
///
/// Returns the parsed document exactly when the input (with one line break
/// appended, as every item must end in one) matches the document grammar;
/// otherwise returns the grammar error or, for a colour set literal whose
/// labels are not `light` and `dark`, the label error naming both labels.
pub fn parse_document(input: &[u8]) -> (r: Result<Document, Error>)
    ensures
        match r {
            Ok(doc) => spec_parse_document(input@) == SpecParsed::Parsed(
                doc@,
                input@.len() + 1 as int,
            ),
            Err(e) => match e {
                Error::ParseError { .. } => spec_parse_document(input@) is Fail,
                Error::InvalidColorSetDeclaration { first, second } => spec_parse_document(input@)
                    == SpecParsed::<Seq<SpecDocumentItem>>::Labels(first@, second@),
                _ => false,
            },
        },
{
    let mut t: Vec<u8> = Vec::new();
    let mut m: usize = 0;
    while m < input.len()
        invariant
            m <= input@.len(),
            t@ == input@.subrange(0, m as int),
        decreases input@.len() - m,
    {
        t.push(input[m]);
        proof {
            assert(t@ =~= input@.subrange(0, m + 1));
        }
        m = m + 1;
    }
    t.push(NEWLINE);
    proof {
        assert(input@.subrange(0, input@.len() as int) =~= input@);
        assert(t@ =~= input@.push(NEWLINE));
    }
    let ts: &[u8] = t.as_slice();
    let j = skip_blank(ts, 0);
    let mut items: Vec<DocumentItem> = Vec::new();
    let mut cur: usize = j;
    loop
        invariant
            j <= cur <= ts@.len(),
            ts@ == input@.push(NEWLINE),
            j == spec_skip_blank(ts@, 0),
            spec_document_items(ts@, j as int) == spec_cat_doc(
                spec_document_items_view(items@),
                spec_document_items(ts@, cur as int),
            ),
        ensures
            j <= cur <= ts@.len(),
            spec_document_items(ts@, j as int) == SpecParsed::Parsed(
                spec_document_items_view(items@),
                cur as int,
            ),
        decreases ts@.len() - cur,
    {
        let ghost items_snap = spec_document_items_view(items@);
        match document_item(ts, cur) {
            Ok((it, k)) => {
                match line_delimiter(ts, k) {
                    Some(k2) => {
                        proof {
                            assert(spec_document_items(ts@, cur as int) == spec_cat_doc(
                                seq![it@],
                                spec_document_items(ts@, k2 as int),
                            ));
                            lemma_cat_doc_push(items_snap, it@, spec_document_items(ts@, k2 as int));
                        }
                        items.push(it);
                        proof {
                            assert(spec_document_items_view(items@) =~= items_snap.push(
                                items@[items@.len() - 1]@,
                            ));
                        }
                        cur = k2;
                    },
                    None => {
                        let mut contexts: Vec<ParseContext> = Vec::new();
                        contexts.push(ParseContext::LineDelimiter);
                        contexts.push(ParseContext::Document);
                        return Err(Error::ParseError { offset: k, contexts });
                    },
                }
            },
            Err(e) => {
                match e {
                    ParseFail::ColorSetLabels { first, second } => {
                        return Err(Error::InvalidColorSetDeclaration { first, second });
                    },
                    ParseFail::Grammar { .. } => {
                        proof {
                            assert(spec_document_items(ts@, cur as int)
                                == SpecParsed::<Seq<SpecDocumentItem>>::Parsed(
                                Seq::empty(),
                                cur as int,
                            ));
                            assert(spec_document_items_view(items@) + Seq::empty()
                                =~= spec_document_items_view(items@));
                        }
                        break;
                    },
                }
            },
        }
    }
    if cur == t.len() {
        Ok(Document { items })
    } else {
        let mut contexts: Vec<ParseContext> = Vec::new();
        contexts.push(ParseContext::Document);
        Err(Error::ParseError { offset: cur, contexts })
    }
}

// ---------------------------------------------------------------------------
// Laws
// ---------------------------------------------------------------------------

/// An integer percentage `NN%` with `NN` at most 100 always parses, and
/// sets the alpha to `NN/100` (here in thousandths: ten per percent).
pub proof fn lemma_alpha_percentage(s: Seq<u8>, i: int, k: int)
    requires
        0 <= i < k,
        k < s.len(),
        forall|q: int| i <= q < k ==> is_digit_byte(#[trigger] s[q]),
        s[k] == PERCENT_SIGN,
        spec_dec_val(s, i, k) <= 100,
    ensures
        spec_alpha_value(s, i) == Some(((spec_dec_val(s, i, k) * 10) as u16, k + 1)),
{
    lemma_digit_end_of_run(s, i, k);
}

/// The digit run `s[i..k)` ends exactly at `k` when `s[k]` is no digit.
proof fn lemma_digit_end_of_run(s: Seq<u8>, i: int, k: int)
    requires
        0 <= i <= k,
        k < s.len(),
        forall|q: int| i <= q < k ==> is_digit_byte(#[trigger] s[q]),
        !is_digit_byte(s[k]),
    ensures
        spec_digit_end(s, i) == k,
    decreases k - i,
{
    if i < k {
        lemma_digit_end_of_run(s, i + 1, k);
    }
}

/// Every bare hex literal `#RRGGBB` (with no percentage suffix after it)
/// parses to the colour whose channels are exactly the literal's hex digit
/// pairs, with a fully opaque alpha.
pub proof fn lemma_hex_literal(s: Seq<u8>, i: int)
    requires
        0 <= i,
        i + 7 <= s.len(),
        s[i] == HASH_SIGN,
        forall|q: int| i + 1 <= q < i + 7 ==> is_hex_digit_byte(#[trigger] s[q]),
        i + 7 == s.len() || !is_space(s[i + 7]),
    ensures
        spec_hex_color(s, i) == Some(
            (
                Color {
                    r: (hex_digit_value(s[i + 1]) * 16 + hex_digit_value(s[i + 2])) as u8,
                    g: (hex_digit_value(s[i + 3]) * 16 + hex_digit_value(s[i + 4])) as u8,
                    b: (hex_digit_value(s[i + 5]) * 16 + hex_digit_value(s[i + 6])) as u8,
                    a: 1000u16,
                },
                i + 7,
            ),
        ),
{
}

/// A hex literal followed by whitespace and a percentage parses to the same
/// channels with the percentage as its alpha.
pub proof fn lemma_hex_literal_with_alpha(s: Seq<u8>, i: int, a: u16, k: int)
    requires
        0 <= i,
        i + 7 <= s.len(),
        s[i] == HASH_SIGN,
        forall|q: int| i + 1 <= q < i + 7 ==> is_hex_digit_byte(#[trigger] s[q]),
        i + 7 < s.len() && is_space(s[i + 7]),
        spec_alpha_value(s, spec_skip_space(s, i + 7)) == Some((a, k)),
    ensures
        spec_hex_color(s, i) == Some(
            (
                Color {
                    r: (hex_digit_value(s[i + 1]) * 16 + hex_digit_value(s[i + 2])) as u8,
                    g: (hex_digit_value(s[i + 3]) * 16 + hex_digit_value(s[i + 4])) as u8,
                    b: (hex_digit_value(s[i + 5]) * 16 + hex_digit_value(s[i + 6])) as u8,
                    a,
                },
                k,
            ),
        ),
{
}

/// An `rgba` channel whose decimal digits denote a value above 255 is a
/// grammar failure, never clamped.
pub proof fn lemma_rgba_channel_range(s: Seq<u8>, i: int)
    requires
        spec_dec_val(s, spec_skip_space(s, i), spec_digit_end(s, spec_skip_space(s, i))) > 255,
    ensures
        spec_u8_channel(s, i) is None,
{
}

/// Two labelled colour set slots combine to the same colour set whichever
/// order they are written in.
pub proof fn lemma_colorset_slot_order(
    d1: SpecDeclaration<SpecColorSetValue>,
    d2: SpecDeclaration<SpecColorSetValue>,
)
    ensures
        spec_colorset_from_declarations(d1, d2) == spec_colorset_from_declarations(d2, d1),
{
}

/// Whether every byte of `s` is a hexadecimal digit.
pub open spec fn spec_all_hex(s: Seq<u8>) -> bool {
    forall|i: int| 0 <= i < s.len() ==> is_hex_digit_byte(#[trigger] s[i])
}

/// Value of a whole hexadecimal digit string.
pub open spec fn spec_hex_value(s: Seq<u8>) -> int
    decreases s.len(),
{
    if s.len() == 0 {
        0
    } else {
        spec_hex_value(s.drop_last()) * 16 + hex_digit_value(s.last())
    }
}


proof fn lemma_hex_value_nonneg(s: Seq<u8>)
    requires
        spec_all_hex(s),
    ensures
        spec_hex_value(s) >= 0,
    decreases s.len(),
{
    if s.len() > 0 {
        assert(spec_all_hex(s.drop_last()));
        lemma_hex_value_nonneg(s.drop_last());
    }
}

/// Parses a whole byte string as a hexadecimal number: it must be
/// non-empty, all hexadecimal digits, and fit the result type.
pub fn parse_hex_value(input: &[u8]) -> (r: Option<u32>)
    ensures
        r == if input@.len() > 0 && spec_all_hex(input@) && spec_hex_value(input@) <= u32::MAX {
            Some(spec_hex_value(input@) as u32)
        } else {
            None::<u32>
        },
{
    if input.len() == 0 {
        return None;
    }
    let mut acc: u64 = 0;
    let mut m: usize = 0;
    while m < input.len()
        invariant
            m <= input@.len(),
            forall|q: int| 0 <= q < m ==> is_hex_digit_byte(#[trigger] input@[q]),
            spec_hex_value(input@.subrange(0, m as int)) <= u32::MAX ==> acc == spec_hex_value(
                input@.subrange(0, m as int),
            ),
            spec_hex_value(input@.subrange(0, m as int)) > u32::MAX ==> acc == 0x1_0000_0000u64,
            acc <= 0x1_0000_0000u64,
        decreases input@.len() - m,
    {
        let c = input[m];
        if !is_hex_digit(c) {
            proof {
                assert(!spec_all_hex(input@));
            }
            return None;
        }
        let d = hex_val(c);
        proof {
            assert(input@.subrange(0, m + 1).drop_last() =~= input@.subrange(0, m as int));
            assert(input@.subrange(0, m + 1).last() == input@[m as int]);
            let pv = spec_hex_value(input@.subrange(0, m as int));
            assert(spec_hex_value(input@.subrange(0, m + 1)) == pv * 16 + hex_digit_value(
                input@[m as int],
            ));
            lemma_hex_value_nonneg(input@.subrange(0, m as int));
            assert(pv * 16 >= pv) by (nonlinear_arith)
                requires
                    pv >= 0,
            ;
        }
        let next: u64 = acc * 16 + (d as u64);
        if next > 0xFFFF_FFFF {
            acc = 0x1_0000_0000;
        } else {
            acc = next;
        }
        m = m + 1;
    }
    proof {
        assert(input@.subrange(0, input@.len() as int) =~= input@);
    }
    if acc <= 0xFFFF_FFFF {
        Some(acc as u32)
    } else {
        None
    }
}


// ---------------------------------------------------------------------------
// Well-formedness of everything the grammar accepts
// ---------------------------------------------------------------------------

/// Every byte of the run recognised by [`spec_digit_end`] is a digit.
proof fn lemma_digit_run_digits(s: Seq<u8>, i: int)
    ensures
        forall|m: int| i <= m < spec_digit_end(s, i) ==> is_digit_byte(#[trigger] s[m]),
    decreases s.len() - i,
{
    if 0 <= i < s.len() && is_digit_byte(s[i]) {
        lemma_digit_run_digits(s, i + 1);
    }
}

/// The value of a digit run is never negative.
proof fn lemma_dec_val_nonneg(s: Seq<u8>, i: int, j: int)
    requires
        forall|m: int| i <= m < j ==> is_digit_byte(#[trigger] s[m]),
    ensures
        spec_dec_val(s, i, j) >= 0,
    decreases j - i,
{
    if i < j {
        lemma_dec_val_nonneg(s, i, j - 1);
        let pv = spec_dec_val(s, i, j - 1);
        assert(pv * 10 >= 0) by (nonlinear_arith)
            requires
                pv >= 0,
        ;
    }
}

/// A parsed percentage is within full opacity.
proof fn lemma_alpha_value_bound(s: Seq<u8>, i: int, a: u16, k: int)
    requires
        spec_alpha_value(s, i) == Some((a, k)),
    ensures
        a <= 1000,
{
    let e = spec_digit_end(s, i);
    lemma_digit_run_digits(s, i);
    lemma_dec_val_nonneg(s, i, e);
}

/// An optional alpha suffix is always within full opacity.
proof fn lemma_opt_alpha_suffix_bound(s: Seq<u8>, i: int)
    ensures
        spec_opt_alpha_suffix(s, i).0 <= 1000,
{
    if i < s.len() && is_space(s[i]) {
        match spec_alpha_value(s, spec_skip_space(s, i)) {
            Some((a, k)) => {
                lemma_alpha_value_bound(s, spec_skip_space(s, i), a, k);
            },
            None => {},
        }
    }
}

/// A parsed decimal alpha literal is within full opacity.
proof fn lemma_float_alpha_bound(s: Seq<u8>, i: int, a: u16, k: int)
    requires
        spec_float_alpha(s, i) == Some((a, k)),
    ensures
        a <= 1000,
{
    let e = spec_digit_end(s, i);
    lemma_digit_run_digits(s, i);
    lemma_dec_val_nonneg(s, i, e);
    if e > i && e < s.len() && s[e] == DOT {
        lemma_digit_run_digits(s, e + 1);
        lemma_frac3_nonneg(s, e + 1, spec_digit_end(s, e + 1));
    }
    if !(e > i) && i < s.len() && s[i] == DOT {
        lemma_digit_run_digits(s, i + 1);
        lemma_frac3_nonneg(s, i + 1, spec_digit_end(s, i + 1));
    }
}

/// The value of the first three digits of a run is never negative.
proof fn lemma_frac3_nonneg(s: Seq<u8>, a: int, b: int)
    requires
        forall|m: int| a <= m < b ==> is_digit_byte(#[trigger] s[m]),
    ensures
        spec_frac3(s, a, b) >= 0,
{
}

/// A parsed hex colour is well formed.
proof fn lemma_hex_color_valid(s: Seq<u8>, i: int, c: Color, k: int)
    requires
        spec_hex_color(s, i) == Some((c, k)),
    ensures
        c.valid(),
{
    lemma_opt_alpha_suffix_bound(s, i + 7);
}

/// A parsed `rgba` colour is well formed.
proof fn lemma_rgba_color_valid(s: Seq<u8>, i: int, c: Color, k: int)
    requires
        spec_rgba_color(s, i) == Some((c, k)),
    ensures
        c.valid(),
{
    if i + 4 <= s.len() && s[i] == LOWER_R && s[i + 1] == LOWER_G && s[i + 2] == LOWER_B && s[i
        + 3] == LOWER_A {
        let p0 = spec_skip_space(s, i + 4);
        if p0 < s.len() && s[p0] == LEFT_PAREN {
            match spec_u8_channel(s, p0 + 1) {
                Some((_, p1)) => {
                    let c1 = spec_skip_space(s, p1);
                    if c1 < s.len() && s[c1] == COMMA {
                        match spec_u8_channel(s, c1 + 1) {
                            Some((_, p2)) => {
                                let c2 = spec_skip_space(s, p2);
                                if c2 < s.len() && s[c2] == COMMA {
                                    match spec_u8_channel(s, c2 + 1) {
                                        Some((_, p3)) => {
                                            let c3 = spec_skip_space(s, p3);
                                            if c3 < s.len() && s[c3] == COMMA {
                                                let q = spec_skip_space(s, c3 + 1);
                                                match spec_float_alpha(s, q) {
                                                    Some((a, p4)) => {
                                                        lemma_float_alpha_bound(s, q, a, p4);
                                                    },
                                                    None => {},
                                                }
                                            }
                                        },
                                        None => {},
                                    }
                                }
                            },
                            None => {},
                        }
                    }
                },
                None => {},
            }
        }
    }
}

/// A parsed variable reference is well formed.
proof fn lemma_variable_value_valid(s: Seq<u8>, i: int, v: SpecVariable, k: int)
    requires
        spec_variable_value(s, i) == Some((v, k)),
    ensures
        spec_variable_valid(v),
{
    match spec_variable_identifier(s, i) {
        Some((_, j)) => {
            lemma_opt_alpha_suffix_bound(s, j);
        },
        None => {},
    }
}

/// A parsed colour set slot value is well formed.
proof fn lemma_colorset_value_valid(s: Seq<u8>, i: int, v: SpecColorSetValue, k: int)
    requires
        spec_colorset_value(s, i) == Some((v, k)),
    ensures
        spec_slot_valid(v),
{
    let j = spec_skip_space(s, i);
    match spec_hex_color(s, j) {
        Some((c, k2)) => {
            lemma_hex_color_valid(s, j, c, k2);
        },
        None => match spec_rgba_color(s, j) {
            Some((c, k2)) => {
                lemma_rgba_color_valid(s, j, c, k2);
            },
            None => match spec_variable_value(s, j) {
                Some((x, k2)) => {
                    lemma_variable_value_valid(s, j, x, k2);
                },
                None => {},
            },
        },
    }
}

/// A parsed labelled slot is well formed.
proof fn lemma_cs_declaration_valid(
    s: Seq<u8>,
    i: int,
    d: SpecDeclaration<SpecColorSetValue>,
    k: int,
)
    requires
        spec_cs_declaration(s, i) == Some((d, k)),
    ensures
        spec_slot_valid(d.value),
{
    match spec_identifier(s, i) {
        Some((_, j)) => {
            let c = spec_skip_space(s, j);
            if c < s.len() && s[c] == COLON {
                match spec_colorset_value(s, c + 1) {
                    Some((v, k2)) => {
                        lemma_colorset_value_valid(s, c + 1, v, k2);
                    },
                    None => {},
                }
            }
        },
        None => {},
    }
}

/// A parsed colour set literal is well formed.
proof fn lemma_colorset_valid(s: Seq<u8>, i: int, cs: SpecColorSet, k: int)
    requires
        spec_colorset(s, i) == SpecParsed::Parsed(cs, k),
    ensures
        spec_colorset_valid(cs),
{
    if i < s.len() && s[i] == LEFT_PAREN {
        match spec_cs_declaration(s, i + 1) {
            Some((d1, p1)) => {
                lemma_cs_declaration_valid(s, i + 1, d1, p1);
                let c = spec_skip_space(s, p1);
                if c < s.len() && s[c] == COMMA {
                    match spec_cs_declaration(s, c + 1) {
                        Some((d2, p2)) => {
                            lemma_cs_declaration_valid(s, c + 1, d2, p2);
                        },
                        None => {},
                    }
                }
            },
            None => {},
        }
    }
}

/// A parsed value is well formed.
proof fn lemma_value_valid(s: Seq<u8>, i: int, v: SpecValue, k: int)
    requires
        spec_value(s, i) == SpecParsed::Parsed(v, k),
    ensures
        spec_value_valid(v),
{
    let j = spec_skip_space(s, i);
    match spec_colorset_value(s, j) {
        Some((x, k2)) => {
            lemma_colorset_value_valid(s, j, x, k2);
        },
        None => match spec_colorset(s, j) {
            SpecParsed::Parsed(cs, k2) => {
                lemma_colorset_valid(s, j, cs, k2);
            },
            _ => {},
        },
    }
}

/// A parsed declaration binds a well formed value.
proof fn lemma_declaration_valid(s: Seq<u8>, i: int, d: SpecDeclaration<SpecValue>, k: int)
    requires
        spec_declaration(s, i) == SpecParsed::Parsed(d, k),
    ensures
        spec_value_valid(d.value),
{
    match spec_identifier(s, i) {
        Some((_, j)) => {
            let c = spec_skip_space(s, j);
            if c < s.len() && s[c] == COLON {
                match spec_value(s, c + 1) {
                    SpecParsed::Parsed(v, k2) => {
                        lemma_value_valid(s, c + 1, v, k2);
                    },
                    _ => {},
                }
            }
        },
        None => {},
    }
}

/// A parsed variable declaration binds a well formed value.
proof fn lemma_variable_declaration_valid(
    s: Seq<u8>,
    i: int,
    d: SpecDeclaration<SpecValue>,
    k: int,
)
    requires
        spec_variable_declaration(s, i) == SpecParsed::Parsed(d, k),
    ensures
        spec_value_valid(d.value),
{
    match spec_variable_identifier(s, i) {
        Some((_, j)) => {
            let c = spec_skip_space(s, j);
            if c < s.len() && s[c] == COLON {
                match spec_value(s, c + 1) {
                    SpecParsed::Parsed(v, k2) => {
                        lemma_value_valid(s, c + 1, v, k2);
                    },
                    _ => {},
                }
            }
        },
        None => {},
    }
}

/// A parsed rule set holds only well formed values.
proof fn lemma_ruleset_valid(s: Seq<u8>, i: int, rs: SpecRuleSet, k: int)
    requires
        spec_ruleset(s, i) == SpecParsed::Parsed(rs, k),
    ensures
        spec_ruleset_valid(rs),
    decreases s.len() - i, 0int,
{
    match spec_identifier(s, i) {
        Some((_, j)) => {
            let b = spec_skip_space(s, j);
            if b < s.len() && s[b] == LEFT_BRACE {
                let p = spec_skip_blank(s, b + 1);
                if i < p && p <= s.len() {
                    match spec_ruleset_items(s, p) {
                        SpecParsed::Parsed(items, q) => {
                            lemma_ruleset_items_valid(s, p, items, q);
                        },
                        _ => {},
                    }
                }
            }
        },
        None => {},
    }
}

/// All items parsed from a rule set body are well formed.
proof fn lemma_ruleset_items_valid(s: Seq<u8>, i: int, items: Seq<SpecRuleSetItem>, k: int)
    requires
        spec_ruleset_items(s, i) == SpecParsed::Parsed(items, k),
    ensures
        forall|q: int| 0 <= q < items.len() ==> spec_ruleset_item_valid(#[trigger] items[q]),
    decreases s.len() - i, 2int,
{
    match spec_ruleset_item(s, i) {
        SpecParsed::Fail => {},
        SpecParsed::Labels(_, _) => {},
        SpecParsed::Parsed(item, k1) => match spec_line_delimiter(s, k1) {
            None => {},
            Some(k2) => {
                if i < k2 && k2 <= s.len() {
                    match spec_ruleset_items(s, k2) {
                        SpecParsed::Parsed(rest, e) => {
                            lemma_ruleset_item_valid(s, i, item, k1);
                            lemma_ruleset_items_valid(s, k2, rest, e);
                            assert forall|q: int|
                                0 <= q < items.len() implies spec_ruleset_item_valid(
                                #[trigger] items[q],
                            ) by {
                                assert(items == seq![item] + rest);
                                if q == 0 {
                                    assert(items[q] == item);
                                } else {
                                    assert(items[q] == rest[q - 1]);
                                }
                            }
                        },
                        _ => {},
                    }
                }
            },
        },
    }
}

/// A parsed rule set body item is well formed.
proof fn lemma_ruleset_item_valid(s: Seq<u8>, i: int, it: SpecRuleSetItem, k: int)
    requires
        spec_ruleset_item(s, i) == SpecParsed::Parsed(it, k),
    ensures
        spec_ruleset_item_valid(it),
    decreases s.len() - i, 1int,
{
    match spec_ruleset(s, i) {
        SpecParsed::Parsed(r, k2) => {
            lemma_ruleset_valid(s, i, r, k2);
        },
        SpecParsed::Labels(_, _) => {},
        SpecParsed::Fail => match spec_declaration(s, i) {
            SpecParsed::Parsed(d, k2) => {
                lemma_declaration_valid(s, i, d, k2);
            },
            _ => {},
        },
    }
}

/// A parsed top-level item is well formed.
proof fn lemma_document_item_valid(s: Seq<u8>, i: int, it: SpecDocumentItem, k: int)
    requires
        spec_document_item(s, i) == SpecParsed::Parsed(it, k),
    ensures
        spec_document_item_valid(it),
{
    match spec_variable_declaration(s, i) {
        SpecParsed::Parsed(d, k2) => {
            lemma_variable_declaration_valid(s, i, d, k2);
        },
        SpecParsed::Labels(_, _) => {},
        SpecParsed::Fail => match spec_ruleset(s, i) {
            SpecParsed::Parsed(r, k2) => {
                lemma_ruleset_valid(s, i, r, k2);
            },
            SpecParsed::Labels(_, _) => {},
            SpecParsed::Fail => match spec_declaration(s, i) {
                SpecParsed::Parsed(d, k2) => {
                    lemma_declaration_valid(s, i, d, k2);
                },
                _ => {},
            },
        },
    }
}

/// All parsed top-level items are well formed.
proof fn lemma_document_items_valid(s: Seq<u8>, i: int, items: Seq<SpecDocumentItem>, k: int)
    requires
        spec_document_items(s, i) == SpecParsed::Parsed(items, k),
    ensures
        spec_document_valid(items),
    decreases s.len() - i,
{
    match spec_document_item(s, i) {
        SpecParsed::Fail => {},
        SpecParsed::Labels(_, _) => {},
        SpecParsed::Parsed(item, k1) => match spec_line_delimiter(s, k1) {
            None => {},
            Some(k2) => {
                if i < k2 && k2 <= s.len() {
                    match spec_document_items(s, k2) {
                        SpecParsed::Parsed(rest, e) => {
                            lemma_document_item_valid(s, i, item, k1);
                            lemma_document_items_valid(s, k2, rest, e);
                            assert forall|q: int|
                                0 <= q < items.len() implies spec_document_item_valid(
                                #[trigger] items[q],
                            ) by {
                                assert(items == seq![item] + rest);
                                if q == 0 {
                                    assert(items[q] == item);
                                } else {
                                    assert(items[q] == rest[q - 1]);
                                }
                            }
                        },
                        _ => {},
                    }
                }
            },
        },
    }
}

/// Everything the grammar accepts is well formed: every colour and opacity
/// in a parsed document stays within full opacity.
pub proof fn lemma_parse_document_valid(s: Seq<u8>, items: Seq<SpecDocumentItem>, k: int)
    requires
        spec_parse_document(s) == SpecParsed::Parsed(items, k),
    ensures
        spec_document_valid(items),
{
    let t = s.push(NEWLINE);
    let j = spec_skip_blank(t, 0);
    match spec_document_items(t, j) {
        SpecParsed::Parsed(items2, k2) => {
            lemma_document_items_valid(t, j, items2, k2);
        },
        _ => {},
    }
}

} // verus!
