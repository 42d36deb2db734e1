//! The integer codes of a colour component, and how three channels share one
//! number.
//!
//! The average colour is stored as three sRGB codes of eight bits each, packed
//! into one number of 24 bits. Every other component is stored as three levels
//! from 0 to 18, packed as the digits of a number of radix 19.

use vstd::arithmetic::div_mod::{
    lemma_fundamental_div_mod, lemma_fundamental_div_mod_converse_div,
    lemma_fundamental_div_mod_converse_mod,
};
use vstd::prelude::*;

verus! {

/// The red, green and blue codes of one colour component.
#[derive(Clone, Copy, Debug, PartialEq, Eq, Structural)]
pub struct Channels {
    pub r: usize,
    pub g: usize,
    pub b: usize,
}

/// The highest level of a channel of a component other than the average.
pub const MAX_LEVEL: usize = 18;

/// The highest sRGB code of a channel of the average colour.
pub const MAX_SRGB: usize = 255;

impl Channels {
    /// Whether the three codes are sRGB codes of eight bits.
    pub open spec fn is_srgb(self) -> bool {
        self.r <= 255 && self.g <= 255 && self.b <= 255
    }

    /// Whether the three codes are levels from 0 to 18.
    pub open spec fn is_levels(self) -> bool {
        self.r <= 18 && self.g <= 18 && self.b <= 18
    }
}

/// The channels that the number `value` holds as an average colour: red above
/// the low 16 bits, green in bits 8 to 15, blue in the low 8 bits.
pub open spec fn dc_channels(value: usize) -> Channels {
    Channels { r: value / 65536, g: (value / 256) % 256, b: value % 256 }
}

/// The number that holds the sRGB codes `channels`.
pub open spec fn dc_value(channels: Channels) -> int {
    channels.r * 65536 + channels.g * 256 + channels.b
}

/// The channels that the number `value` holds as a component other than the
/// average: the digits of `value` in radix 19, red first.
pub open spec fn ac_channels(value: usize) -> Channels {
    Channels { r: value / 361, g: (value / 19) % 19, b: value % 19 }
}

/// The number that holds the levels `channels`.
pub open spec fn ac_value(channels: Channels) -> int {
    channels.r * 361 + channels.g * 19 + channels.b
}

/// Splits the number of an average colour into its three sRGB codes. The red
/// code is above 255 where `value` does not fit in 24 bits.
pub fn decode_dc(value: usize) -> (channels: Channels)
    ensures
        channels == dc_channels(value),
{
    let r = value >> 16;
    let g = (value >> 8) & 255;
    let b = value & 255;
    proof {
        assert(value >> 16 == value / 65536) by (bit_vector);
        assert((value >> 8) & 255 == (value / 256) % 256) by (bit_vector);
        assert(value & 255 == value % 256) by (bit_vector);
    }
    Channels { r, g, b }
}

/// Packs three sRGB codes into the number of an average colour.
pub fn encode_dc(channels: Channels) -> (value: usize)
    requires
        channels.is_srgb(),
    ensures
        value == dc_value(channels),
        value < 16777216,
{
    let r = channels.r;
    let g = channels.g;
    let b = channels.b;
    proof {
        assert(r <= 255 ==> r << 16 == r * 65536) by (bit_vector);
        assert(g <= 255 ==> g << 8 == g * 256) by (bit_vector);
    }
    (r << 16) + (g << 8) + b
}

/// Splits the number of a component other than the average into its three
/// levels. The red level is 19 where `value` is 6859 or more.
pub fn decode_ac(value: usize) -> (channels: Channels)
    ensures
        channels == ac_channels(value),
{
    Channels { r: value / (19 * 19), g: (value / 19) % 19, b: value % 19 }
}

/// Packs three levels into the number of a component other than the average.
pub fn encode_ac(channels: Channels) -> (value: usize)
    requires
        channels.is_levels(),
    ensures
        value == ac_value(channels),
        value < 6859,
{
    channels.r * 19 * 19 + channels.g * 19 + channels.b
}

/// The highest quantised maximum: the value of the last digit.
pub const MAX_MAXIMUM: usize = 82;

/// The quantised maximum of a hash with `others` components beside the
/// average, where `raw` is what the components give before it is cut to one
/// digit: 0 where there are no other components, else `raw`, and 82 where
/// `raw` is more.
pub open spec fn maximum_digit(others: nat, raw: usize) -> usize {
    if others == 0 {
        0
    } else if raw > 82 {
        82
    } else {
        raw
    }
}

/// Cuts a quantised maximum to one digit.
pub fn clamp_maximum(raw: usize) -> (digit: usize)
    ensures
        digit <= 82,
        forall|others: nat| others > 0 ==> digit == #[trigger] maximum_digit(others, raw),
{
    if raw > MAX_MAXIMUM {
        MAX_MAXIMUM
    } else {
        raw
    }
}

/// Whether the three codes are sRGB codes of eight bits.
pub fn is_srgb(channels: &Channels) -> (yes: bool)
    ensures
        yes == channels.is_srgb(),
{
    channels.r <= MAX_SRGB && channels.g <= MAX_SRGB && channels.b <= MAX_SRGB
}

/// Whether the three codes are levels from 0 to 18.
pub fn is_levels(channels: &Channels) -> (yes: bool)
    ensures
        yes == channels.is_levels(),
{
    channels.r <= MAX_LEVEL && channels.g <= MAX_LEVEL && channels.b <= MAX_LEVEL
}

/// The three digits of a number in a radix: where `value` is
/// `(r * radix + g) * radix + b` with `g` and `b` below `radix`, dividing
/// gives the digits back.
proof fn lemma_three_digits(radix: int, r: int, g: int, b: int)
    requires
        radix > 0,
        0 <= r,
        0 <= g < radix,
        0 <= b < radix,
    ensures
        ((r * radix + g) * radix + b) / (radix * radix) == r,
        (((r * radix + g) * radix + b) / radix) % radix == g,
        ((r * radix + g) * radix + b) % radix == b,
{
    let upper = r * radix + g;
    let value = upper * radix + b;
    lemma_fundamental_div_mod_converse_div(value, radix, upper, b);
    lemma_fundamental_div_mod_converse_mod(value, radix, upper, b);
    lemma_fundamental_div_mod_converse_div(upper, radix, r, g);
    lemma_fundamental_div_mod_converse_mod(upper, radix, r, g);
    assert(value == r * (radix * radix) + (g * radix + b)) by (nonlinear_arith)
        requires
            value == (r * radix + g) * radix + b,
    ;
    assert(0 <= g * radix + b < radix * radix) by (nonlinear_arith)
        requires
            0 <= g < radix,
            0 <= b < radix,
    ;
    lemma_fundamental_div_mod_converse_div(value, radix * radix, r, g * radix + b);
}

/// Three sRGB codes that were packed come out of the number unchanged.
pub proof fn lemma_dc_round_trip(channels: Channels)
    requires
        channels.is_srgb(),
    ensures
        0 <= dc_value(channels) < 16777216,
        dc_channels(dc_value(channels) as usize) == channels,
{
    lemma_three_digits(256, channels.r as int, channels.g as int, channels.b as int);
}

/// Three levels that were packed come out of the number unchanged.
pub proof fn lemma_ac_round_trip(channels: Channels)
    requires
        channels.is_levels(),
    ensures
        0 <= ac_value(channels) < 6859,
        ac_channels(ac_value(channels) as usize) == channels,
{
    lemma_three_digits(19, channels.r as int, channels.g as int, channels.b as int);
}

/// A number below 2^24 is the number of the sRGB codes it holds, and a number
/// below 19^3 the number of the levels it holds.
pub proof fn lemma_channels_round_trip(value: usize)
    ensures
        value < 16777216 ==> dc_channels(value).is_srgb() && dc_value(dc_channels(value)) == value,
        value < 6859 ==> ac_channels(value).is_levels() && ac_value(ac_channels(value)) == value,
{
    let v = value as int;
    lemma_fundamental_div_mod(v, 256);
    lemma_fundamental_div_mod(v / 256, 256);
    lemma_fundamental_div_mod(v, 19);
    lemma_fundamental_div_mod(v / 19, 19);
    assert(v / 65536 == (v / 256) / 256) by {
        vstd::arithmetic::div_mod::lemma_div_denominator(v, 256, 256);
    }
    assert(v / 361 == (v / 19) / 19) by {
        vstd::arithmetic::div_mod::lemma_div_denominator(v, 19, 19);
    }
}

} // verus!
