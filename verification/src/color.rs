//! Terminal colors.

use crate::options::{ColorScheme, ColorWhen, Options};
use vstd::prelude::*;

verus! {

pub const CYAN: u8 = 36;
pub const GREEN: u8 = 32;
pub const DIM: u8 = 90;

/// The escape sequence that selects the foreground color `n`, a number of two digits.
pub open spec fn escape(n: u8) -> Seq<u8> {
    seq![0x1bu8, 0x5b, (0x30 + n / 10) as u8, (0x30 + n % 10) as u8, 0x6d]
}

/// The escape sequence that ends a color.
pub open spec fn reset() -> Seq<u8> {
    seq![0x1bu8, 0x5b, 0x30, 0x6d]
}

/// `s` where colors are on, and nothing otherwise.
pub open spec fn tint(on: bool, s: Seq<u8>) -> Seq<u8> {
    if on {
        s
    } else {
        seq![]
    }
}

/// The color of a byte value under a scheme.
pub open spec fn byte_color(b: u8, scheme: ColorScheme) -> u8 {
    match scheme {
        ColorScheme::Default => 32,
        ColorScheme::Type => if b == 0 {
            90
        } else if b == 0x20 {
            36
        } else if 0x21 <= b <= 0x7e {
            32
        } else if b < 0x80 {
            33
        } else {
            31
        },
        ColorScheme::Gradient => if b == 0 {
            90
        } else if b < 0x40 {
            34
        } else if b < 0x80 {
            32
        } else if b < 0xc0 {
            33
        } else {
            31
        },
    }
}

/// The color of a character in the panel.
pub open spec fn panel_color(b: u8) -> u8 {
    if 0x20 <= b <= 0x7e {
        32
    } else {
        90
    }
}

/// Appends the escape sequence for color `n`, where colors are on.
pub fn push_escape(dst: &mut Vec<u8>, n: u8, on: bool)
    requires
        n < 100,
    ensures
        final(dst)@ == old(dst)@ + tint(on, escape(n)),
{
    let ghost before = dst@;
    if on {
        dst.push(0x1b);
        dst.push(0x5b);
        dst.push(0x30 + n / 10);
        dst.push(0x30 + n % 10);
        dst.push(0x6d);
    }
    assert(dst@ =~= before + tint(on, escape(n)));
}

/// Appends the escape sequence that ends a color, where colors are on.
pub fn push_reset(dst: &mut Vec<u8>, on: bool)
    ensures
        final(dst)@ == old(dst)@ + tint(on, reset()),
{
    let ghost before = dst@;
    if on {
        dst.push(0x1b);
        dst.push(0x5b);
        dst.push(0x30);
        dst.push(0x6d);
    }
    assert(dst@ =~= before + tint(on, reset()));
}

/// The color of a byte value under a scheme.
pub fn byte_ansi(b: u8, scheme: ColorScheme) -> (n: u8)
    ensures
        n == byte_color(b, scheme),
        10 <= n < 100,
{
    match scheme {
        ColorScheme::Default => 32,
        ColorScheme::Type => match b {
            0x00 => 90,
            0x01..=0x1f => 33,
            0x20 => 36,
            0x21..=0x7e => 32,
            0x7f => 33,
            _ => 31,
        },
        ColorScheme::Gradient => match b {
            0x00 => 90,
            0x01..=0x3f => 34,
            0x40..=0x7f => 32,
            0x80..=0xbf => 33,
            _ => 31,
        },
    }
}

/// Are colors used, given whether the output is a terminal?
pub open spec fn color_used(when: ColorWhen, terminal: bool) -> bool {
    match when {
        ColorWhen::Always => true,
        ColorWhen::Never => false,
        ColorWhen::Auto => terminal,
    }
}

/// Are colors used, given whether the output is a terminal?
pub fn use_color(opts: &Options, terminal: bool) -> (r: bool)
    ensures
        r == color_used(opts.color, terminal),
{
    match opts.color {
        ColorWhen::Always => true,
        ColorWhen::Never => false,
        ColorWhen::Auto => terminal,
    }
}

} // verus!
