//! Colours with 8-bit channels, with and without an alpha channel.
//!
//! Every operation returns a new value, and every channel result stays in
//! `0..=255`: sums are limited to that range, never wrapped.

use vstd::prelude::*;
use crate::factor::{lemma_mixed_one, lemma_mixed_same, lemma_mixed_zero, Factor};

verus! {

/// A colour with red, green, blue and alpha channels.
#[derive(Debug, Clone, Copy, PartialEq, Eq, Structural)]
pub struct Color {
    pub r: u8,
    pub g: u8,
    pub b: u8,
    pub a: u8,
}

/// A colour with red, green and blue channels.
#[derive(Debug, Clone, Copy, PartialEq, Eq, Structural)]
pub struct Color3 {
    pub r: u8,
    pub g: u8,
    pub b: u8,
}

/// `value` limited to the range of a channel.
pub open spec fn clamp_channel(value: int) -> int {
    if value < 0 {
        0
    } else if value > 255 {
        255
    } else {
        value
    }
}

/// The luminance `0.299 r + 0.587 g + 0.114 b`, rounded down.
pub open spec fn luminance(r: int, g: int, b: int) -> int {
    (299 * r + 587 * g + 114 * b) / 1000
}

/// Whether adding `amount` to the channel value `value` leaves `0..=255`.
pub open spec fn clamps(value: int, amount: int) -> bool {
    value + amount < 0 || value + amount > 255
}

/// Whether adding `amount` and then taking it away again returns to `value`
/// although both steps hit an end of the range.
pub open spec fn rebounds(value: int, amount: int) -> bool {
    (value == 0 && amount > 255) || (value == 255 && amount < -255)
}

/// Adds `amount` to a channel value and limits the sum to `0..=255`.
fn shift_channel(value: u8, amount: i32) -> (out: u8)
    ensures
        out == clamp_channel(value + amount),
{
    let sum: i64 = value as i64 + amount as i64;
    if sum < 0 {
        0
    } else if sum > 255 {
        255
    } else {
        sum as u8
    }
}

/// Computes the luminance of three channel values.
fn luminance_of(r: u8, g: u8, b: u8) -> (out: u8)
    ensures
        out == luminance(r as int, g as int, b as int),
{
    ((299 * r as u32 + 587 * g as u32 + 114 * b as u32) / 1000) as u8
}

impl Color {
    /// `self` weighted by `factor`, `other` by the rest, channel by channel.
    pub open spec fn blended(self, other: Color, factor: Factor) -> Color {
        Color {
            r: factor.mixed(self.r as int, other.r as int) as u8,
            g: factor.mixed(self.g as int, other.g as int) as u8,
            b: factor.mixed(self.b as int, other.b as int) as u8,
            a: factor.mixed(self.a as int, other.a as int) as u8,
        }
    }

    /// `self` with `amount` added to red, green and blue.
    pub open spec fn brightened(self, amount: int) -> Color {
        Color {
            r: clamp_channel(self.r + amount) as u8,
            g: clamp_channel(self.g + amount) as u8,
            b: clamp_channel(self.b + amount) as u8,
            a: self.a,
        }
    }

    /// `self` with red, green and blue mirrored within `0..=255`.
    pub open spec fn inverted(self) -> Color {
        Color { r: (255 - self.r) as u8, g: (255 - self.g) as u8, b: (255 - self.b) as u8, a: self.a }
    }

    /// The colour without its alpha channel.
    pub open spec fn rgb(self) -> Color3 {
        Color3 { r: self.r, g: self.g, b: self.b }
    }

    /// Blends two colours: each channel is `self * factor + other * (1 -
    /// factor)`, rounded down. A factor of one returns `self`, a factor of
    /// zero returns `other`.
    pub fn blend(&self, other: Color, factor: Factor) -> (out: Color)
        ensures
            out == self.blended(other, factor),
    {
        Color {
            r: factor.mix(self.r, other.r),
            g: factor.mix(self.g, other.g),
            b: factor.mix(self.b, other.b),
            a: factor.mix(self.a, other.a),
        }
    }

    /// Adds `amount` to red, green and blue, each limited to `0..=255`; a
    /// negative amount darkens. Alpha is kept.
    pub fn brighten(&self, amount: i32) -> (out: Color)
        ensures
            out == self.brightened(amount as int),
    {
        Color {
            r: shift_channel(self.r, amount),
            g: shift_channel(self.g, amount),
            b: shift_channel(self.b, amount),
            a: self.a,
        }
    }

    /// Replaces red, green and blue by the luminance. Alpha is kept.
    pub fn grayscale(&self) -> (out: Color)
        ensures
            out.r == luminance(self.r as int, self.g as int, self.b as int),
            out.g == out.r,
            out.b == out.r,
            out.a == self.a,
    {
        let gray = luminance_of(self.r, self.g, self.b);
        Color { r: gray, g: gray, b: gray, a: self.a }
    }

    /// The same colour with the alpha channel set to `alpha`.
    pub fn with_alpha(&self, alpha: u8) -> (out: Color)
        ensures
            out == (Color { r: self.r, g: self.g, b: self.b, a: alpha }),
    {
        Color { r: self.r, g: self.g, b: self.b, a: alpha }
    }

    /// Interpolates from `self` to `other`: each channel is `self * (1 - t) +
    /// other * t`, rounded down. The parameter runs against the factor of
    /// `blend`: a `t` of zero returns `self`, a `t` of one returns `other`.
    pub fn interpolate(&self, other: Color, t: Factor) -> (out: Color)
        ensures
            out == other.blended(*self, t),
    {
        other.blend(*self, t)
    }

    /// Mirrors red, green and blue within `0..=255`. Alpha is kept.
    pub fn invert(&self) -> (out: Color)
        ensures
            out == self.inverted(),
    {
        Color { r: 255 - self.r, g: 255 - self.g, b: 255 - self.b, a: self.a }
    }

    /// The channels as a tuple `(r, g, b, a)`.
    pub fn to_rgba(&self) -> (out: (u8, u8, u8, u8))
        ensures
            out == (self.r, self.g, self.b, self.a),
    {
        (self.r, self.g, self.b, self.a)
    }

    /// The colour with the channels `(r, g, b, a)`.
    pub fn from_rgba(rgba: (u8, u8, u8, u8)) -> (out: Color)
        ensures
            out == (Color { r: rgba.0, g: rgba.1, b: rgba.2, a: rgba.3 }),
    {
        Color { r: rgba.0, g: rgba.1, b: rgba.2, a: rgba.3 }
    }

    /// Adds `alpha` to the alpha channel, limited to `0..=255`. The other
    /// channels are kept.
    pub fn adjust_alpha(&self, alpha: i32) -> (out: Color)
        ensures
            out.r == self.r,
            out.g == self.g,
            out.b == self.b,
            out.a == clamp_channel(self.a + alpha),
    {
        Color { r: self.r, g: self.g, b: self.b, a: shift_channel(self.a, alpha) }
    }
}

impl Color3 {
    /// `self` weighted by `factor`, `other` by the rest, channel by channel.
    pub open spec fn blended(self, other: Color3, factor: Factor) -> Color3 {
        Color3 {
            r: factor.mixed(self.r as int, other.r as int) as u8,
            g: factor.mixed(self.g as int, other.g as int) as u8,
            b: factor.mixed(self.b as int, other.b as int) as u8,
        }
    }

    /// `self` with `amount` added to every channel.
    pub open spec fn brightened(self, amount: int) -> Color3 {
        Color3 {
            r: clamp_channel(self.r + amount) as u8,
            g: clamp_channel(self.g + amount) as u8,
            b: clamp_channel(self.b + amount) as u8,
        }
    }

    /// `self` with every channel mirrored within `0..=255`.
    pub open spec fn inverted(self) -> Color3 {
        Color3 { r: (255 - self.r) as u8, g: (255 - self.g) as u8, b: (255 - self.b) as u8 }
    }

    /// Blends two colours: each channel is `self * factor + other * (1 -
    /// factor)`, rounded down. A factor of one returns `self`, a factor of
    /// zero returns `other`.
    pub fn blend(&self, other: Color3, factor: Factor) -> (out: Color3)
        ensures
            out == self.blended(other, factor),
    {
        Color3 {
            r: factor.mix(self.r, other.r),
            g: factor.mix(self.g, other.g),
            b: factor.mix(self.b, other.b),
        }
    }

    /// Adds `amount` to every channel, each limited to `0..=255`; a negative
    /// amount darkens.
    pub fn brighten(&self, amount: i32) -> (out: Color3)
        ensures
            out == self.brightened(amount as int),
    {
        Color3 {
            r: shift_channel(self.r, amount),
            g: shift_channel(self.g, amount),
            b: shift_channel(self.b, amount),
        }
    }

    /// Replaces every channel by the luminance.
    pub fn grayscale(&self) -> (out: Color3)
        ensures
            out.r == luminance(self.r as int, self.g as int, self.b as int),
            out.g == out.r,
            out.b == out.r,
    {
        let gray = luminance_of(self.r, self.g, self.b);
        Color3 { r: gray, g: gray, b: gray }
    }

    /// The same colour with an alpha channel of `alpha`.
    pub fn with_alpha(&self, alpha: u8) -> (out: Color)
        ensures
            out == (Color { r: self.r, g: self.g, b: self.b, a: alpha }),
    {
        Color { r: self.r, g: self.g, b: self.b, a: alpha }
    }

    /// Interpolates from `self` to the red, green and blue of `other`: each
    /// channel is `self * (1 - t) + other * t`, rounded down. The parameter
    /// runs against the factor of `blend`: a `t` of zero returns `self`, a `t`
    /// of one returns `other`.
    pub fn interpolate(&self, other: Color, t: Factor) -> (out: Color3)
        ensures
            out == other.rgb().blended(*self, t),
    {
        Color3 { r: other.r, g: other.g, b: other.b }.blend(*self, t)
    }

    /// Mirrors every channel within `0..=255`.
    pub fn invert(&self) -> (out: Color3)
        ensures
            out == self.inverted(),
    {
        Color3 { r: 255 - self.r, g: 255 - self.g, b: 255 - self.b }
    }

    /// The channels as a tuple `(r, g, b)`.
    pub fn to_rgb(&self) -> (out: (u8, u8, u8))
        ensures
            out == (self.r, self.g, self.b),
    {
        (self.r, self.g, self.b)
    }

    /// The colour with the channels `(r, g, b)`.
    pub fn from_rgb(rgb: (u8, u8, u8)) -> (out: Color3)
        ensures
            out == (Color3 { r: rgb.0, g: rgb.1, b: rgb.2 }),
    {
        Color3 { r: rgb.0, g: rgb.1, b: rgb.2 }
    }
}

/// Blending a colour with itself returns it, whatever the factor.
pub proof fn lemma_blend_same(c: Color, factor: Factor)
    ensures
        c.blended(c, factor) == c,
{
    lemma_mixed_same(factor, c.r as int);
    lemma_mixed_same(factor, c.g as int);
    lemma_mixed_same(factor, c.b as int);
    lemma_mixed_same(factor, c.a as int);
}

/// Blending with a factor of zero returns the other colour.
pub proof fn lemma_blend_zero(c: Color, other: Color, factor: Factor)
    requires
        factor.is_zero(),
    ensures
        c.blended(other, factor) == other,
{
    lemma_mixed_zero(factor, c.r as int, other.r as int);
    lemma_mixed_zero(factor, c.g as int, other.g as int);
    lemma_mixed_zero(factor, c.b as int, other.b as int);
    lemma_mixed_zero(factor, c.a as int, other.a as int);
}

/// Blending with a factor of one returns the colour itself.
pub proof fn lemma_blend_one(c: Color, other: Color, factor: Factor)
    requires
        factor.is_one(),
    ensures
        c.blended(other, factor) == c,
{
    lemma_mixed_one(factor, c.r as int, other.r as int);
    lemma_mixed_one(factor, c.g as int, other.g as int);
    lemma_mixed_one(factor, c.b as int, other.b as int);
    lemma_mixed_one(factor, c.a as int, other.a as int);
}

/// The three blend laws for colours without alpha.
pub proof fn lemma_blend3_laws(c: Color3, other: Color3, factor: Factor)
    ensures
        c.blended(c, factor) == c,
        factor.is_zero() ==> c.blended(other, factor) == other,
        factor.is_one() ==> c.blended(other, factor) == c,
{
    lemma_mixed_same(factor, c.r as int);
    lemma_mixed_same(factor, c.g as int);
    lemma_mixed_same(factor, c.b as int);
    if factor.is_zero() {
        lemma_mixed_zero(factor, c.r as int, other.r as int);
        lemma_mixed_zero(factor, c.g as int, other.g as int);
        lemma_mixed_zero(factor, c.b as int, other.b as int);
    }
    if factor.is_one() {
        lemma_mixed_one(factor, c.r as int, other.r as int);
        lemma_mixed_one(factor, c.g as int, other.g as int);
        lemma_mixed_one(factor, c.b as int, other.b as int);
    }
}

/// Brightening by zero changes nothing.
pub proof fn lemma_brighten_zero(c: Color)
    ensures
        c.brightened(0) == c,
{
}

/// Brightening by `amount` and then by `-amount` returns the colour exactly
/// when no channel left the range on the way, but for a channel at one end
/// of the range that is pushed past the other end and comes back.
pub proof fn lemma_brighten_round_trip(c: Color, amount: int)
    ensures
        c.brightened(amount).brightened(-amount) == c <==> {
            &&& !clamps(c.r as int, amount) || rebounds(c.r as int, amount)
            &&& !clamps(c.g as int, amount) || rebounds(c.g as int, amount)
            &&& !clamps(c.b as int, amount) || rebounds(c.b as int, amount)
        },
{
}

/// Where no channel leaves the range, brightening by `amount` is undone by
/// brightening by `-amount`.
pub proof fn lemma_brighten_undone(c: Color, amount: int)
    requires
        !clamps(c.r as int, amount),
        !clamps(c.g as int, amount),
        !clamps(c.b as int, amount),
    ensures
        c.brightened(amount).brightened(-amount) == c,
{
}

/// The brighten laws for colours without alpha.
pub proof fn lemma_brighten3_laws(c: Color3, amount: int)
    ensures
        c.brightened(0) == c,
        c.brightened(amount).brightened(-amount) == c <==> {
            &&& !clamps(c.r as int, amount) || rebounds(c.r as int, amount)
            &&& !clamps(c.g as int, amount) || rebounds(c.g as int, amount)
            &&& !clamps(c.b as int, amount) || rebounds(c.b as int, amount)
        },
{
}

/// Inverting twice returns the colour.
pub proof fn lemma_invert_twice(c: Color)
    ensures
        c.inverted().inverted() == c,
{
}

/// Inverting a colour without alpha twice returns it.
pub proof fn lemma_invert3_twice(c: Color3)
    ensures
        c.inverted().inverted() == c,
{
}

} // verus!
