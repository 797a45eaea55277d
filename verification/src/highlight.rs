//! A self-contained 24-bit highlight state and its SGR escape rendering.

use vstd::prelude::*;

use crate::decimal::{dec_chars, push_dec};

verus! {

/// A rendering attribute flag, used as a bit in [`Highlight::attrs`].
pub enum Attr {
    BOLD,
    ITALIC,
    UNDERLINE,
    REVERSE,
}

/// The bit that `a` occupies in an attribute mask.
pub open spec fn spec_attr_bit(a: Attr) -> u8 {
    match a {
        Attr::BOLD => 1,
        Attr::ITALIC => 2,
        Attr::UNDERLINE => 4,
        Attr::REVERSE => 8,
    }
}

impl Attr {
    /// The bit that this flag occupies in an attribute mask.
    pub fn bit(&self) -> (b: u8)
        ensures
            b == spec_attr_bit(*self),
    {
        match self {
            Attr::BOLD => 1,
            Attr::ITALIC => 2,
            Attr::UNDERLINE => 4,
            Attr::REVERSE => 8,
        }
    }
}

/// A full 24-bit colour pair plus a set of attribute flags.
///
/// `fg` and `bg` hold `"r;g;b"` decimal triplets, `attrs` a bitmask of
/// [`Attr`] bits.
pub struct Highlight {
    pub fg: String,
    pub bg: String,
    pub attrs: u8,
}

/// Whether the flag `a` is set in `h.attrs`.
pub open spec fn has_attr(h: &Highlight, a: Attr) -> bool {
    h.attrs & spec_attr_bit(a) != 0
}

/// The full escape sequence that [`Highlight::to_string`] renders: a
/// reset, the attribute flags that are set, and both colours, with
/// foreground and background swapped under [`Attr::REVERSE`].
pub open spec fn highlight_chars(h: &Highlight) -> Seq<char> {
    ("\u{1b}[0;")@ + (if has_attr(h, Attr::BOLD) {
        ("1;")@
    } else {
        Seq::<char>::empty()
    }) + (if has_attr(h, Attr::ITALIC) {
        ("3;")@
    } else {
        Seq::<char>::empty()
    }) + (if has_attr(h, Attr::UNDERLINE) {
        ("4;")@
    } else {
        Seq::<char>::empty()
    }) + ("38;2;")@ + (if has_attr(h, Attr::REVERSE) {
        h.bg@
    } else {
        h.fg@
    }) + (";48;2;")@ + (if has_attr(h, Attr::REVERSE) {
        h.fg@
    } else {
        h.bg@
    }) + ("m")@
}

impl Highlight {
    /// A white-on-black highlight with no flags set.
    pub fn new() -> (r: Self)
        ensures
            r.fg@ == ("255;255;255")@,
            r.bg@ == ("0;0;0")@,
            r.attrs == 0,
    {
        Highlight {
            fg: String::from_str("255;255;255"),
            bg: String::from_str("0;0;0"),
            attrs: 0,
        }
    }

    /// Render this highlight as one SGR escape sequence.
    pub fn to_string(&self) -> (r: String)
        ensures
            r@ == highlight_chars(self),
    {
        let mut s = String::from_str("\u{1b}[0;");
        if self.attrs & Attr::BOLD.bit() != 0 {
            s.append("1;");
        }
        if self.attrs & Attr::ITALIC.bit() != 0 {
            s.append("3;");
        }
        if self.attrs & Attr::UNDERLINE.bit() != 0 {
            s.append("4;");
        }
        s.append("38;2;");
        if self.attrs & Attr::REVERSE.bit() != 0 {
            s.append(self.bg.as_str());
        } else {
            s.append(self.fg.as_str());
        }
        s.append(";48;2;");
        if self.attrs & Attr::REVERSE.bit() != 0 {
            s.append(self.fg.as_str());
        } else {
            s.append(self.bg.as_str());
        }
        s.append("m");
        proof {
            assert(s@ =~= highlight_chars(self));
        }
        s
    }
}

/// The `"r;g;b"` decimal rendering of a packed 24-bit colour value.
pub open spec fn rgb_chars(val: u32) -> Seq<char> {
    dec_chars((val >> 16) as nat) + (";")@ + dec_chars(((val & 0x00ff00) >> 8) as nat) + (";")@
        + dec_chars((val & 0xff) as nat)
}

/// Render a packed 24-bit colour value as an `"r;g;b"` decimal triplet.
pub fn rgb_to_string(val: u32) -> (r: String)
    ensures
        r@ == rgb_chars(val),
{
    let mut s = String::new();
    push_dec(&mut s, (val >> 16) as u64);
    s.append(";");
    push_dec(&mut s, ((val & 0x00ff00) >> 8) as u64);
    s.append(";");
    push_dec(&mut s, (val & 0xff) as u64);
    proof {
        assert(s@ =~= rgb_chars(val));
    }
    s
}

} // verus!
