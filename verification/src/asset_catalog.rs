//! Colour component encoding for the asset-catalog writer.
//!
//! The catalog consumer expects each red, green and blue channel as a
//! two-digit uppercase hexadecimal string prefixed `0x`, and the alpha as a
//! base-10 decimal with exactly three fractional digits. The functions here
//! produce those encodings as ASCII byte strings; writing the surrounding
//! JSON and directories is the caller's business.

use vstd::prelude::*;

use crate::ast::Color;

verus! {

/// The ASCII byte of one uppercase hexadecimal digit (0-15).
pub open spec fn spec_upper_hex_digit(v: int) -> u8 {
    if v < 10 {
        (48 + v) as u8
    } else {
        (65 + (v - 10)) as u8
    }
}

/// `0xRR`: the channel as two uppercase hexadecimal digits prefixed `0x`.
pub open spec fn spec_hex_component(v: u8) -> Seq<u8> {
    seq![48u8, 120u8, spec_upper_hex_digit((v / 16) as int), spec_upper_hex_digit((v % 16) as int)]
}

/// `D.DDD`: the alpha (in thousandths, at most 1000) as a decimal with
/// exactly three fractional digits: `0.000` up to `1.000`.
pub open spec fn spec_alpha_component(a: u16) -> Seq<u8> {
    seq![
        (48 + a / 1000) as u8,
        46u8,
        (48 + (a / 100) % 10) as u8,
        (48 + (a / 10) % 10) as u8,
        (48 + a % 10) as u8,
    ]
}

/// Encodes one channel as `0x` plus two uppercase hexadecimal digits.
pub fn hex_component(v: u8) -> (r: Vec<u8>)
    ensures
        r@ == spec_hex_component(v),
{
    let mut out: Vec<u8> = Vec::new();
    out.push(48);
    out.push(120);
    let hi = v / 16;
    let lo = v % 16;
    if hi < 10 {
        out.push(48 + hi);
    } else {
        out.push(65 + (hi - 10));
    }
    if lo < 10 {
        out.push(48 + lo);
    } else {
        out.push(65 + (lo - 10));
    }
    proof {
        assert(out@ =~= spec_hex_component(v));
    }
    out
}

/// Encodes an alpha in thousandths as a decimal with three fractional
/// digits.
pub fn alpha_component(a: u16) -> (r: Vec<u8>)
    requires
        a <= 1000,
    ensures
        r@ == spec_alpha_component(a),
{
    let mut out: Vec<u8> = Vec::new();
    out.push(48 + (a / 1000) as u8);
    out.push(46);
    out.push(48 + ((a / 100) % 10) as u8);
    out.push(48 + ((a / 10) % 10) as u8);
    out.push(48 + (a % 10) as u8);
    proof {
        assert(out@ =~= spec_alpha_component(a));
    }
    out
}

/// Encodes all four components of a colour: red, green and blue as
/// `0x`-prefixed uppercase hex pairs, alpha as `D.DDD`.
pub fn color_components(c: &Color) -> (r: (Vec<u8>, Vec<u8>, Vec<u8>, Vec<u8>))
    requires
        c.valid(),
    ensures
        r.0@ == spec_hex_component(c.r),
        r.1@ == spec_hex_component(c.g),
        r.2@ == spec_hex_component(c.b),
        r.3@ == spec_alpha_component(c.a),
{
    (hex_component(c.r), hex_component(c.g), hex_component(c.b), alpha_component(c.a))
}

} // verus!
