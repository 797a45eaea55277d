//! Resolved rendering attributes for one syntax group.
//!
//! The engine answers an attribute query with six strings (foreground,
//! background and four flags). This module turns them into the SGR
//! parameter fragments that the renderer compares and emits, resolving
//! empty values against a baseline attribute.

use vstd::prelude::*;

use crate::decimal::{dec_chars, push_dec};
use crate::nvim::NvimError;

verus! {

/// Whether `c` spells `d` up to ASCII case, where `d` is already lower
/// case.
pub open spec fn lower_eq_char(c: char, d: char) -> bool {
    c == d || (c as u32 >= 65 && c as u32 <= 90 && c as u32 + 32 == d as u32)
}

/// Whether `s` spells `t` up to ASCII case, where `t` is already lower
/// case.
pub open spec fn lower_eq(s: Seq<char>, t: Seq<char>) -> bool {
    s.len() == t.len() && (forall|i: int| 0 <= i < s.len() ==> lower_eq_char(s[i], t[i]))
}

/// Compare `s` against an already-lower-case pattern `t`, folding ASCII
/// case in `s`.
pub fn str_lower_eq(s: &str, t: &str) -> (b: bool)
    ensures
        b == lower_eq(s@, t@),
{
    let sn = s.unicode_len();
    let tn = t.unicode_len();
    if sn != tn {
        return false;
    }
    let mut i: usize = 0;
    while i < sn
        invariant
            sn == s@.len(),
            sn == t@.len(),
            0 <= i <= sn,
            forall|j: int| 0 <= j < i ==> lower_eq_char(s@[j], t@[j]),
        decreases sn - i,
    {
        let c = s.get_char(i);
        let d = t.get_char(i);
        let cu = c as u32;
        let du = d as u32;
        if !(c == d || (cu >= 65 && cu <= 90 && cu + 32 == du)) {
            return false;
        }
        i += 1;
    }
    true
}

/// The palette index that a colour name denotes, compared without ASCII
/// case.
pub open spec fn spec_colour_index(s: Seq<char>) -> Option<u8> {
    if lower_eq(s, ("black")@) {
        Some(0u8)
    } else if lower_eq(s, ("darkblue")@) {
        Some(4u8)
    } else if lower_eq(s, ("darkgreen")@) {
        Some(2u8)
    } else if lower_eq(s, ("darkcyan")@) {
        Some(6u8)
    } else if lower_eq(s, ("darkred")@) {
        Some(1u8)
    } else if lower_eq(s, ("darkmagenta")@) {
        Some(5u8)
    } else if lower_eq(s, ("darkyellow")@) {
        Some(3u8)
    } else if lower_eq(s, ("brown")@) {
        Some(3u8)
    } else if lower_eq(s, ("lightgray")@) {
        Some(7u8)
    } else if lower_eq(s, ("lightgrey")@) {
        Some(7u8)
    } else if lower_eq(s, ("gray")@) {
        Some(7u8)
    } else if lower_eq(s, ("grey")@) {
        Some(7u8)
    } else if lower_eq(s, ("darkgray")@) {
        Some(8u8)
    } else if lower_eq(s, ("darkgrey")@) {
        Some(8u8)
    } else if lower_eq(s, ("blue")@) {
        Some(12u8)
    } else if lower_eq(s, ("lightblue")@) {
        Some(12u8)
    } else if lower_eq(s, ("green")@) {
        Some(10u8)
    } else if lower_eq(s, ("lightgreen")@) {
        Some(10u8)
    } else if lower_eq(s, ("cyan")@) {
        Some(14u8)
    } else if lower_eq(s, ("lightcyan")@) {
        Some(14u8)
    } else if lower_eq(s, ("red")@) {
        Some(9u8)
    } else if lower_eq(s, ("lightred")@) {
        Some(9u8)
    } else if lower_eq(s, ("magenta")@) {
        Some(13u8)
    } else if lower_eq(s, ("lightmagenta")@) {
        Some(13u8)
    } else if lower_eq(s, ("yellow")@) {
        Some(11u8)
    } else if lower_eq(s, ("lightyellow")@) {
        Some(11u8)
    } else if lower_eq(s, ("white")@) {
        Some(15u8)
    } else {
        None
    }
}

/// Look a colour name up in the fixed name table, without ASCII case.
pub fn colour_index(s: &str) -> (r: Option<u8>)
    ensures
        r == spec_colour_index(s@),
{
    if str_lower_eq(s, "black") {
        Some(0)
    } else if str_lower_eq(s, "darkblue") {
        Some(4)
    } else if str_lower_eq(s, "darkgreen") {
        Some(2)
    } else if str_lower_eq(s, "darkcyan") {
        Some(6)
    } else if str_lower_eq(s, "darkred") {
        Some(1)
    } else if str_lower_eq(s, "darkmagenta") {
        Some(5)
    } else if str_lower_eq(s, "darkyellow") {
        Some(3)
    } else if str_lower_eq(s, "brown") {
        Some(3)
    } else if str_lower_eq(s, "lightgray") {
        Some(7)
    } else if str_lower_eq(s, "lightgrey") {
        Some(7)
    } else if str_lower_eq(s, "gray") {
        Some(7)
    } else if str_lower_eq(s, "grey") {
        Some(7)
    } else if str_lower_eq(s, "darkgray") {
        Some(8)
    } else if str_lower_eq(s, "darkgrey") {
        Some(8)
    } else if str_lower_eq(s, "blue") {
        Some(12)
    } else if str_lower_eq(s, "lightblue") {
        Some(12)
    } else if str_lower_eq(s, "green") {
        Some(10)
    } else if str_lower_eq(s, "lightgreen") {
        Some(10)
    } else if str_lower_eq(s, "cyan") {
        Some(14)
    } else if str_lower_eq(s, "lightcyan") {
        Some(14)
    } else if str_lower_eq(s, "red") {
        Some(9)
    } else if str_lower_eq(s, "lightred") {
        Some(9)
    } else if str_lower_eq(s, "magenta") {
        Some(13)
    } else if str_lower_eq(s, "lightmagenta") {
        Some(13)
    } else if str_lower_eq(s, "yellow") {
        Some(11)
    } else if str_lower_eq(s, "lightyellow") {
        Some(11)
    } else if str_lower_eq(s, "white") {
        Some(15)
    } else {
        None
    }
}

/// Whether `c` is a decimal digit.
pub open spec fn is_digit(c: char) -> bool {
    c as u32 >= 48 && c as u32 <= 57
}

/// The numeric value of a digit sequence, most significant first.
pub open spec fn dec_val(s: Seq<char>) -> nat
    decreases s.len(),
{
    if s.len() == 0 {
        0
    } else {
        dec_val(s.drop_last()) * 10 + (s.last() as u32 - 48) as nat
    }
}

/// Whether every character of `s` is a decimal digit.
pub open spec fn all_digits(s: Seq<char>) -> bool {
    forall|i: int| 0 <= i < s.len() ==> is_digit(s[i])
}

/// What `s` denotes as a palette index: an optional `'+'` sign, then
/// digits, with a value below 256.
pub open spec fn spec_parse_u8(s: Seq<char>) -> Option<u8> {
    let body = if s.len() > 0 && s[0] == '+' {
        s.drop_first()
    } else {
        s
    };
    if body.len() > 0 && all_digits(body) && dec_val(body) < 256 {
        Some(dec_val(body) as u8)
    } else {
        None
    }
}

proof fn lemma_dec_val_monotone(s: Seq<char>, i: int)
    requires
        0 <= i <= s.len(),
    ensures
        dec_val(s.subrange(0, i)) <= dec_val(s),
    decreases s.len() - i,
{
    if i < s.len() {
        lemma_dec_val_monotone(s, i + 1);
        assert(s.subrange(0, i + 1).drop_last() =~= s.subrange(0, i));
        assert(dec_val(s.subrange(0, i + 1)) == dec_val(s.subrange(0, i)) * 10 + (s.subrange(
            0,
            i + 1,
        ).last() as u32 - 48) as nat);
    } else {
        assert(s.subrange(0, i) =~= s);
    }
}

/// Parse `s` as a palette index below 256.
pub fn parse_u8(s: &str) -> (r: Option<u8>)
    ensures
        r == spec_parse_u8(s@),
{
    let n = s.unicode_len();
    let start: usize = if n > 0 && s.get_char(0) == '+' {
        1
    } else {
        0
    };
    let ghost body = if s@.len() > 0 && s@[0] == '+' {
        s@.drop_first()
    } else {
        s@
    };
    proof {
        assert(body =~= s@.subrange(start as int, n as int));
    }
    if start == n {
        return None;
    }
    let mut acc: u32 = 0;
    let mut i: usize = start;
    while i < n
        invariant
            n == s@.len(),
            start <= i <= n,
            start < n,
            body == s@.subrange(start as int, n as int),
            body == (if s@.len() > 0 && s@[0] == '+' {
                s@.drop_first()
            } else {
                s@
            }),
            all_digits(body.subrange(0, i - start)),
            acc == dec_val(body.subrange(0, i - start)),
            acc < 256,
        decreases n - i,
    {
        let c = s.get_char(i);
        let cu = c as u32;
        if !(cu >= 48 && cu <= 57) {
            proof {
                assert(body[i - start] == s@[i as int]);
                assert(!is_digit(body[i - start]));
            }
            return None;
        }
        proof {
            assert(body.subrange(0, i + 1 - start).drop_last() =~= body.subrange(0, i - start));
            assert(body.subrange(0, i + 1 - start).last() == s@[i as int]);
        }
        acc = acc * 10 + (cu - 48);
        if acc > 255 {
            proof {
                assert(acc == dec_val(body.subrange(0, i + 1 - start)));
                lemma_dec_val_monotone(body, i + 1 - start);
            }
            return None;
        }
        i += 1;
    }
    proof {
        assert(body.subrange(0, n - start) =~= body);
    }
    Some(acc as u8)
}

/// Whether `c` is a hexadecimal digit.
pub open spec fn is_hex_digit(c: char) -> bool {
    (c as u32 >= 48 && c as u32 <= 57) || (c as u32 >= 97 && c as u32 <= 102) || (c as u32 >= 65
        && c as u32 <= 70)
}

/// The numeric value of one hexadecimal digit.
pub open spec fn hex_digit_val(c: char) -> nat {
    if c as u32 >= 97 {
        (c as u32 - 87) as nat
    } else if c as u32 >= 65 {
        (c as u32 - 55) as nat
    } else {
        (c as u32 - 48) as nat
    }
}

/// The numeric value of a hexadecimal digit sequence, most significant
/// first.
pub open spec fn hex_val(s: Seq<char>) -> nat
    decreases s.len(),
{
    if s.len() == 0 {
        0
    } else {
        hex_val(s.drop_last()) * 16 + hex_digit_val(s.last())
    }
}

/// Whether every character of `s` is a hexadecimal digit.
pub open spec fn all_hex_digits(s: Seq<char>) -> bool {
    forall|i: int| 0 <= i < s.len() ==> is_hex_digit(s[i])
}

/// Sixteen to the power `n`.
pub open spec fn pow16(n: nat) -> nat
    decreases n,
{
    if n == 0 {
        1
    } else {
        16 * pow16((n - 1) as nat)
    }
}

proof fn lemma_pow16_le_6(k: nat)
    requires
        k <= 6,
    ensures
        pow16(k) <= 0x1000000,
{
    assert(pow16(0) == 1);
    assert(pow16(1) == 16);
    assert(pow16(2) == 256);
    assert(pow16(3) == 4096);
    assert(pow16(4) == 65536);
    assert(pow16(5) == 1048576);
    assert(pow16(6) == 16777216);
    if k == 0 {
    } else if k == 1 {
    } else if k == 2 {
    } else if k == 3 {
    } else if k == 4 {
    } else if k == 5 {
    } else {
        assert(k == 6);
    }
}

/// Parse the hexadecimal digits of `s` starting at character `start`,
/// accepting one to six digits.
fn parse_hex_from(s: &str, start: usize) -> (r: Option<u32>)
    requires
        start as int <= s@.len(),
    ensures
        ({
            let body = s@.subrange(start as int, s@.len() as int);
            if 1 <= body.len() <= 6 && all_hex_digits(body) {
                r == Some((hex_val(body) as u32)) && hex_val(body) < 0x1000000
            } else {
                r == None::<u32>
            }
        }),
{
    let n = s.unicode_len();
    let ghost body = s@.subrange(start as int, s@.len() as int);
    if n == start || n - start > 6 {
        return None;
    }
    let mut acc: u32 = 0;
    let mut i: usize = start;
    while i < n
        invariant
            n == s@.len(),
            start <= i <= n,
            1 <= n - start <= 6,
            body == s@.subrange(start as int, n as int),
            all_hex_digits(body.subrange(0, i - start)),
            acc == hex_val(body.subrange(0, i - start)),
            acc < pow16((i - start) as nat),
        decreases n - i,
    {
        let c = s.get_char(i);
        let cu = c as u32;
        let d: u32 = if cu >= 48 && cu <= 57 {
            cu - 48
        } else if cu >= 97 && cu <= 102 {
            cu - 87
        } else if cu >= 65 && cu <= 70 {
            cu - 55
        } else {
            proof {
                assert(body[i - start] == s@[i as int]);
                assert(!is_hex_digit(body[i - start]));
            }
            return None;
        };
        proof {
            assert(body.subrange(0, i + 1 - start).drop_last() =~= body.subrange(0, i - start));
            assert(body.subrange(0, i + 1 - start).last() == s@[i as int]);
            assert(pow16((i + 1 - start) as nat) == 16 * pow16((i - start) as nat));
            lemma_pow16_le_6((i - start) as nat);
            assert(d == hex_digit_val(s@[i as int]) && d < 16);
        }
        acc = acc * 16 + d;
        i += 1;
    }
    proof {
        assert(body.subrange(0, n - start) =~= body);
        lemma_pow16_le_6((n - start) as nat);
    }
    Some(acc)
}

/// The `"5;n"` SGR fragment selecting palette entry `n`.
pub open spec fn palette_chars(n: u8) -> Seq<char> {
    ("5;")@ + dec_chars(n as nat)
}

/// The `"2;r;g;b"` SGR fragment selecting a direct colour.
pub open spec fn rgb_colour_chars(v: u32) -> Seq<char> {
    ("2;")@ + dec_chars((v >> 16) as nat) + (";")@ + dec_chars(((v >> 8) & 0xff) as nat) + (";")@
        + dec_chars((v & 0xff) as nat)
}

/// What a colour value string from the engine denotes.
///
/// An empty string denotes no colour; `#` followed by one to six
/// hexadecimal digits a direct 24-bit colour; a decimal number below
/// 256 a palette index; a known colour name its palette entry. A `#`
/// followed by anything else is a malformed engine value.
pub open spec fn spec_parse_colour(s: Seq<char>) -> Result<Option<Seq<char>>, ()> {
    if s.len() == 0 {
        Ok(None)
    } else if s[0] == '#' {
        let body = s.drop_first();
        if 1 <= body.len() <= 6 && all_hex_digits(body) {
            Ok(Some(rgb_colour_chars(hex_val(body) as u32)))
        } else {
            Err(())
        }
    } else if spec_parse_u8(s).is_some() {
        Ok(Some(palette_chars(spec_parse_u8(s).unwrap())))
    } else if spec_colour_index(s).is_some() {
        Ok(Some(palette_chars(spec_colour_index(s).unwrap())))
    } else {
        Ok(None)
    }
}

/// Parse one colour value string into its SGR fragment.
pub fn parse_colour(s: &str) -> (r: Result<Option<String>, NvimError>)
    ensures
        match r {
            Ok(Some(c)) => spec_parse_colour(s@) == Ok::<Option<Seq<char>>, ()>(Some(c@)),
            Ok(None) => spec_parse_colour(s@) == Ok::<Option<Seq<char>>, ()>(None),
            Err(e) => spec_parse_colour(s@).is_err() && e matches NvimError::DecodeError,
        },
{
    let n = s.unicode_len();
    if n == 0 {
        return Ok(None);
    }
    if s.get_char(0) == '#' {
        proof {
            assert(s@.subrange(1, s@.len() as int) =~= s@.drop_first());
        }
        match parse_hex_from(s, 1) {
            Some(v) => {
                let mut c = String::from_str("2;");
                push_dec(&mut c, (v >> 16) as u64);
                c.append(";");
                push_dec(&mut c, ((v >> 8) & 0xff) as u64);
                c.append(";");
                push_dec(&mut c, (v & 0xff) as u64);
                proof {
                    assert(c@ =~= rgb_colour_chars(v));
                }
                Ok(Some(c))
            },
            None => Err(NvimError::DecodeError),
        }
    } else {
        let idx = match parse_u8(s) {
            Some(v) => Some(v),
            None => colour_index(s),
        };
        match idx {
            Some(v) => {
                let mut c = String::from_str("5;");
                push_dec(&mut c, v as u64);
                proof {
                    assert(c@ =~= palette_chars(v));
                }
                Ok(Some(c))
            },
            None => Ok(None),
        }
    }
}

/// The resolved rendering attributes of one syntax group, each field a
/// ready SGR parameter fragment.
pub struct SynAttr {
    pub fg: String,
    pub bg: String,
    pub bold: String,
    pub reverse: String,
    pub italic: String,
    pub underline: String,
}

/// The abstract value of a [`SynAttr`]: its six fragments as character
/// sequences.
pub ghost struct AttrChars {
    pub fg: Seq<char>,
    pub bg: Seq<char>,
    pub bold: Seq<char>,
    pub reverse: Seq<char>,
    pub italic: Seq<char>,
    pub underline: Seq<char>,
}

impl View for SynAttr {
    type V = AttrChars;

    open spec fn view(&self) -> AttrChars {
        AttrChars {
            fg: self.fg@,
            bg: self.bg@,
            bold: self.bold@,
            reverse: self.reverse@,
            italic: self.italic@,
            underline: self.underline@,
        }
    }
}

/// The neutral attribute: the SGR parameters that undo colours and
/// flags, the state a terminal is in after a reset.
pub open spec fn spec_default_attr() -> AttrChars {
    AttrChars {
        fg: ("39")@,
        bg: ("49")@,
        bold: ("22")@,
        reverse: ("27")@,
        italic: ("23")@,
        underline: ("24")@,
    }
}

/// The neutral attribute, relative to which everything else renders.
pub fn default_attr() -> (r: SynAttr)
    ensures
        r@ == spec_default_attr(),
{
    let r = SynAttr {
        fg: String::from_str("39"),
        bg: String::from_str("49"),
        bold: String::from_str("22"),
        reverse: String::from_str("27"),
        italic: String::from_str("23"),
        underline: String::from_str("24"),
    };
    proof {
        assert(r@ =~= spec_default_attr());
    }
    r
}

/// The abstract value of an optional baseline attribute.
pub open spec fn opt_attr_view(d: Option<&SynAttr>) -> Option<AttrChars> {
    match d {
        Some(a) => Some(a@),
        None => None,
    }
}

/// What [`SynAttr::new`] builds from the engine's six strings and an
/// optional baseline: parsed colours get their `38;`/`48;` prefix,
/// non-empty flags their SGR code, and everything absent inherits from
/// the baseline (or the neutral attribute without one).
pub open spec fn spec_new_attr(
    fg: Seq<char>,
    bg: Seq<char>,
    bold: Seq<char>,
    reverse: Seq<char>,
    italic: Seq<char>,
    underline: Seq<char>,
    d: Option<AttrChars>,
) -> Result<AttrChars, ()> {
    let base = match d {
        Some(a) => a,
        None => spec_default_attr(),
    };
    match (spec_parse_colour(fg), spec_parse_colour(bg)) {
        (Ok(pf), Ok(pb)) => Ok(
            AttrChars {
                fg: match pf {
                    Some(c) => ("38;")@ + c,
                    None => base.fg,
                },
                bg: match pb {
                    Some(c) => ("48;")@ + c,
                    None => base.bg,
                },
                bold: if bold.len() > 0 {
                    ("1")@
                } else {
                    base.bold
                },
                reverse: if reverse.len() > 0 {
                    ("7")@
                } else {
                    base.reverse
                },
                italic: if italic.len() > 0 {
                    ("3")@
                } else {
                    base.italic
                },
                underline: if underline.len() > 0 {
                    ("4")@
                } else {
                    base.underline
                },
            },
        ),
        _ => Err(()),
    }
}

impl SynAttr {
    /// Resolve the six attribute strings of one engine answer against
    /// the baseline `default`.
    ///
    /// Fails with a decode error exactly when a colour value is
    /// malformed.
    pub fn new(
        fg: &str,
        bg: &str,
        bold: &str,
        reverse: &str,
        italic: &str,
        underline: &str,
        default: Option<&SynAttr>,
    ) -> (r: Result<Self, NvimError>)
        ensures
            match r {
                Ok(a) => spec_new_attr(fg@, bg@, bold@, reverse@, italic@, underline@, opt_attr_view(default))
                    == Ok::<AttrChars, ()>(a@),
                Err(e) => spec_new_attr(fg@, bg@, bold@, reverse@, italic@, underline@, opt_attr_view(default)).is_err()
                    && e matches NvimError::DecodeError,
            },
    {
        let pf = match parse_colour(fg) {
            Ok(v) => v,
            Err(e) => {
                return Err(e);
            },
        };
        let pb = match parse_colour(bg) {
            Ok(v) => v,
            Err(e) => {
                return Err(e);
            },
        };
        let fg_frag: String = match pf {
            Some(c) => {
                let mut p = String::from_str("38;");
                p.append(c.as_str());
                p
            },
            None => match default {
                Some(a) => a.fg.clone(),
                None => String::from_str("39"),
            },
        };
        let bg_frag: String = match pb {
            Some(c) => {
                let mut p = String::from_str("48;");
                p.append(c.as_str());
                p
            },
            None => match default {
                Some(a) => a.bg.clone(),
                None => String::from_str("49"),
            },
        };
        let bold_frag: String = if bold.unicode_len() > 0 {
            String::from_str("1")
        } else {
            match default {
                Some(a) => a.bold.clone(),
                None => String::from_str("22"),
            }
        };
        let reverse_frag: String = if reverse.unicode_len() > 0 {
            String::from_str("7")
        } else {
            match default {
                Some(a) => a.reverse.clone(),
                None => String::from_str("27"),
            }
        };
        let italic_frag: String = if italic.unicode_len() > 0 {
            String::from_str("3")
        } else {
            match default {
                Some(a) => a.italic.clone(),
                None => String::from_str("23"),
            }
        };
        let underline_frag: String = if underline.unicode_len() > 0 {
            String::from_str("4")
        } else {
            match default {
                Some(a) => a.underline.clone(),
                None => String::from_str("24"),
            }
        };
        let r = SynAttr {
            fg: fg_frag,
            bg: bg_frag,
            bold: bold_frag,
            reverse: reverse_frag,
            italic: italic_frag,
            underline: underline_frag,
        };
        proof {
            assert(spec_new_attr(
                fg@,
                bg@,
                bold@,
                reverse@,
                italic@,
                underline@,
                opt_attr_view(default),
            ) matches Ok(a) && a =~= r@);
        }
        Ok(r)
    }

    /// An independent copy with the same abstract value.
    pub fn duplicate(&self) -> (r: Self)
        ensures
            r@ == self@,
    {
        let r = SynAttr {
            fg: self.fg.clone(),
            bg: self.bg.clone(),
            bold: self.bold.clone(),
            reverse: self.reverse.clone(),
            italic: self.italic.clone(),
            underline: self.underline.clone(),
        };
        proof {
            assert(r@ =~= self@);
        }
        r
    }
}

} // verus!
