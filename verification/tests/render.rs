//! Unit tests of the byte-level rendering helpers and the attribute
//! resolution rules.

use nvim_cat::decimal::dec_string;
use nvim_cat::highlight::{Attr, Highlight};
use nvim_cat::nvim::{char_is_control, push_print_str};
use nvim_cat::synattr::{colour_index, default_attr, parse_colour, parse_u8, SynAttr};

#[test]
fn caret_notation_for_control_bytes() {
    // every byte in [0,8], [10,31] and 127 renders as caret notation;
    // tab renders literally
    let mut v = Vec::new();
    push_print_str(&mut v, &[0x00, 0x01, 0x08, 0x09, 0x0a, 0x1f, 0x20, 0x41, 0x7e, 0x7f]);
    let mut expected = Vec::new();
    expected.extend_from_slice(b"^@");
    expected.extend_from_slice(b"^A");
    expected.extend_from_slice(b"^H");
    expected.extend_from_slice(b"\t");
    expected.extend_from_slice(b"^J");
    expected.extend_from_slice(b"^_");
    expected.extend_from_slice(b" A~");
    expected.extend_from_slice(b"^?");
    assert_eq!(v, expected);
}

#[test]
fn control_byte_classification() {
    for c in 0u8..=8 {
        assert!(char_is_control(c));
    }
    assert!(!char_is_control(9));
    for c in 10u8..=31 {
        assert!(char_is_control(c));
    }
    assert!(!char_is_control(32));
    assert!(!char_is_control(65));
    assert!(!char_is_control(126));
    assert!(char_is_control(127));
    assert!(!char_is_control(128));
    assert!(!char_is_control(255));
}

#[test]
fn push_print_str_appends() {
    let mut v = b"pre".to_vec();
    push_print_str(&mut v, b"xy");
    assert_eq!(v, b"prexy");
}

#[test]
fn decimal_rendering() {
    assert_eq!(dec_string(0), "0");
    assert_eq!(dec_string(7), "7");
    assert_eq!(dec_string(42), "42");
    assert_eq!(dec_string(1009), "1009");
    assert_eq!(dec_string(u64::MAX), "18446744073709551615");
}

#[test]
fn colour_values_parse() {
    // direct 24-bit colour
    assert_eq!(parse_colour("#ff8000").unwrap(), Some("2;255;128;0".to_string()));
    assert_eq!(parse_colour("#000000").unwrap(), Some("2;0;0;0".to_string()));
    // short hex forms parse by value
    assert_eq!(parse_colour("#f").unwrap(), Some("2;0;0;15".to_string()));
    // palette index
    assert_eq!(parse_colour("12").unwrap(), Some("5;12".to_string()));
    assert_eq!(parse_colour("+5").unwrap(), Some("5;5".to_string()));
    // colour names, case folded
    assert_eq!(parse_colour("red").unwrap(), Some("5;9".to_string()));
    assert_eq!(parse_colour("DarkBlue").unwrap(), Some("5;4".to_string()));
    assert_eq!(parse_colour("LIGHTGREY").unwrap(), Some("5;7".to_string()));
    // absent or unknown values resolve to nothing
    assert_eq!(parse_colour("").unwrap(), None);
    assert_eq!(parse_colour("mauve-ish").unwrap(), None);
    assert_eq!(parse_colour("300").unwrap(), None);
    // a broken direct colour is a malformed engine value
    assert!(parse_colour("#xyz").is_err());
    assert!(parse_colour("#").is_err());
    assert!(parse_colour("#1234567").is_err());
}

#[test]
fn palette_index_parsing() {
    assert_eq!(parse_u8("0"), Some(0));
    assert_eq!(parse_u8("255"), Some(255));
    assert_eq!(parse_u8("256"), None);
    assert_eq!(parse_u8("+9"), Some(9));
    assert_eq!(parse_u8(""), None);
    assert_eq!(parse_u8("+"), None);
    assert_eq!(parse_u8("1a"), None);
    assert_eq!(parse_u8("99999999999999999999"), None);
}

#[test]
fn colour_name_table() {
    assert_eq!(colour_index("black"), Some(0));
    assert_eq!(colour_index("brown"), Some(3));
    assert_eq!(colour_index("gray"), Some(7));
    assert_eq!(colour_index("grey"), Some(7));
    assert_eq!(colour_index("white"), Some(15));
    assert_eq!(colour_index("White"), Some(15));
    assert_eq!(colour_index("lightmagenta"), Some(13));
    assert_eq!(colour_index("no-such-colour"), None);
}

#[test]
fn attributes_resolve_against_baseline() {
    let base = SynAttr::new("1", "2", "x", "", "x", "", None).unwrap();
    assert_eq!(base.fg, "38;5;1");
    assert_eq!(base.bg, "48;5;2");
    assert_eq!(base.bold, "1");
    assert_eq!(base.reverse, "27");
    assert_eq!(base.italic, "3");
    assert_eq!(base.underline, "24");

    // absent components inherit from the baseline
    let derived = SynAttr::new("", "#010203", "", "x", "", "", Some(&base)).unwrap();
    assert_eq!(derived.fg, "38;5;1");
    assert_eq!(derived.bg, "48;2;1;2;3");
    assert_eq!(derived.bold, "1");
    assert_eq!(derived.reverse, "7");
    assert_eq!(derived.italic, "3");
    assert_eq!(derived.underline, "24");

    // and without a baseline, to the neutral parameters
    let neutral = SynAttr::new("", "", "", "", "", "", None).unwrap();
    let dflt = default_attr();
    assert_eq!(neutral.fg, dflt.fg);
    assert_eq!(neutral.bg, dflt.bg);
    assert_eq!(neutral.bold, dflt.bold);
    assert_eq!(neutral.reverse, dflt.reverse);
    assert_eq!(neutral.italic, dflt.italic);
    assert_eq!(neutral.underline, dflt.underline);
    assert_eq!(dflt.fg, "39");
    assert_eq!(dflt.bg, "49");
}

#[test]
fn malformed_attribute_colour_is_an_error() {
    assert!(SynAttr::new("#nope", "", "", "", "", "", None).is_err());
    assert!(SynAttr::new("", "#nope", "", "", "", "", None).is_err());
}

#[test]
fn highlight_escape_rendering() {
    let mut h = Highlight::new();
    assert_eq!(h.fg, "255;255;255");
    assert_eq!(h.bg, "0;0;0");
    assert_eq!(h.to_string(), "\x1b[0;38;2;255;255;255;48;2;0;0;0m");

    h.attrs = Attr::BOLD.bit() | Attr::ITALIC.bit();
    assert_eq!(h.to_string(), "\x1b[0;1;3;38;2;255;255;255;48;2;0;0;0m");

    // reverse swaps the colour roles
    h.attrs = Attr::REVERSE.bit() | Attr::UNDERLINE.bit();
    assert_eq!(h.to_string(), "\x1b[0;4;38;2;0;0;0;48;2;255;255;255m");
}

#[test]
fn rgb_packs_to_decimal_triplet() {
    assert_eq!(nvim_cat::highlight::rgb_to_string(0xff8001), "255;128;1");
    assert_eq!(nvim_cat::highlight::rgb_to_string(0), "0;0;0");
    assert_eq!(nvim_cat::highlight::rgb_to_string(0xffffff), "255;255;255");
}
