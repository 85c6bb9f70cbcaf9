use fasthex::border::{border_bottom, border_header, border_sep, border_top, columns_of, push_head};
use fasthex::charset::{ascii_byte, braille_for_byte, ebcdic_char};
use fasthex::color::{byte_ansi, use_color};
use fasthex::options::{
    BorderStyle, CharTable, ColorScheme, ColorWhen, DisplayMode, Endian, Options,
};
use fasthex::row::{
    field_len_for, format_row_generic, format_scalar_row, hex_width, offset_len, output_line,
    output_line_diverts, read_le_u64, write_offset,
};

fn generic(opts: &Options, src: &[u8], off: u64) -> String {
    let mut out = Vec::new();
    format_row_generic(&mut out, src, off, opts);
    String::from_utf8(out).unwrap()
}

fn line(opts: &Options, src: &[u8], off: u64, color: bool) -> String {
    let mut out = Vec::new();
    output_line(&mut out, src, off, opts, color);
    String::from_utf8(out).unwrap()
}

fn panel(table: CharTable, bytes: &[u8]) -> String {
    let mut out = Vec::new();
    for b in bytes {
        ascii_byte(*b, table, &mut out);
    }
    String::from_utf8(out).unwrap()
}

const ELF: [u8; 16] = [
    0x7f, 0x45, 0x4c, 0x46, 0x02, 0x01, 0x01, 0x00, 0x00, 0x00, 0x00, 0x00, 0x00, 0x00, 0x00, 0x00,
];

#[test]
fn canonical_row_of_an_executable() {
    assert_eq!(
        generic(&Options::default(), &ELF, 0),
        "00000000: 7f 45 4c 46 02 01 01 00  00 00 00 00 00 00 00 00  |.ELF............|\n"
    );
}

#[test]
fn aligned_row_of_an_executable() {
    let opts = Options::default();
    assert_eq!(line(&opts, &ELF, 0, false), generic(&opts, &ELF, 0));
}

#[test]
fn canonical_row_with_offset() {
    let src = [
        0x03, 0x00, 0x3e, 0x00, 0x01, 0x00, 0x00, 0x00, 0xf0, 0x54, 0x00, 0x00, 0x00, 0x00, 0x00,
        0x00,
    ];
    assert_eq!(
        generic(&Options::default(), &src, 0x10),
        "00000010: 03 00 3e 00 01 00 00 00  f0 54 00 00 00 00 00 00  |..>......T......|\n"
    );
}

#[test]
fn short_rows_of_the_three_kinds() {
    let opts = Options::default();
    assert_eq!(
        generic(&opts, b"AB", 0x20),
        "00000020: 41 42                                             |AB|\n"
    );
    assert_eq!(
        line(&opts, b"AB", 0x20, false),
        "00000020: 41 42                                             |AB              |\n"
    );
    let mut out = Vec::new();
    format_scalar_row(&mut out, b"AB", 0x20, false);
    assert_eq!(
        String::from_utf8(out).unwrap(),
        "00000020: 41 42                                            |AB              |\n"
    );
}

#[test]
fn scalar_row_without_panel() {
    let mut out = Vec::new();
    format_scalar_row(&mut out, b"AB", 0, true);
    assert_eq!(
        String::from_utf8(out).unwrap(),
        "00000000: 41 42                                           \n"
    );
}

#[test]
fn aligned_row_in_default_colors() {
    let mut opts = Options::default();
    opts.width = 2;
    assert_eq!(
        line(&opts, &[0x41, 0x00], 0, true),
        "\x1b[36m00000000:\x1b[0m \x1b[32m41\x1b[0m  \x1b[32m00\x1b[0m  |\x1b[32mA\x1b[0m\x1b[90m.\x1b[0m|\n"
    );
}

#[test]
fn colors_by_type_and_gradient() {
    let mut opts = Options::default();
    opts.width = 2;
    opts.scheme = ColorScheme::Type;
    assert_eq!(
        line(&opts, &[0x0a, 0xff], 0, true),
        "\x1b[36m00000000:\x1b[0m \x1b[33m0a\x1b[0m  \x1b[31mff\x1b[0m  |\x1b[90m.\x1b[0m\x1b[90m.\x1b[0m|\n"
    );
    assert_eq!(byte_ansi(0x00, ColorScheme::Type), 90);
    assert_eq!(byte_ansi(0x1f, ColorScheme::Type), 33);
    assert_eq!(byte_ansi(0x20, ColorScheme::Type), 36);
    assert_eq!(byte_ansi(0x7e, ColorScheme::Type), 32);
    assert_eq!(byte_ansi(0x7f, ColorScheme::Type), 33);
    assert_eq!(byte_ansi(0x80, ColorScheme::Type), 31);
    assert_eq!(byte_ansi(0x00, ColorScheme::Gradient), 90);
    assert_eq!(byte_ansi(0x3f, ColorScheme::Gradient), 34);
    assert_eq!(byte_ansi(0x40, ColorScheme::Gradient), 32);
    assert_eq!(byte_ansi(0xbf, ColorScheme::Gradient), 33);
    assert_eq!(byte_ansi(0xc0, ColorScheme::Gradient), 31);
    assert_eq!(byte_ansi(0xc0, ColorScheme::Default), 32);
}

#[test]
fn colors_follow_the_setting() {
    let mut opts = Options::default();
    assert!(use_color(&opts, true));
    assert!(!use_color(&opts, false));
    opts.color = ColorWhen::Always;
    assert!(use_color(&opts, false));
    opts.color = ColorWhen::Never;
    assert!(!use_color(&opts, true));
}

#[test]
fn aligned_row_gives_way_to_a_plain_one() {
    let mut opts = Options::default();
    assert!(!output_line_diverts(&opts));
    opts.no_ascii = true;
    assert!(output_line_diverts(&opts));
    assert_eq!(line(&opts, &ELF, 0, true), generic(&opts, &ELF, 0));
}

#[test]
fn groups_and_byte_order() {
    let mut opts = Options::default();
    opts.width = 8;
    opts.group = 2;
    let src = [1, 2, 3, 4, 5, 6, 7];
    assert_eq!(generic(&opts, &src, 0), "00000000: 01 02  03 04  05 06  07     |.......|\n");
    opts.endian = Endian::Little;
    assert_eq!(generic(&opts, &src, 0), "00000000: 02 01  04 03  06 05  00     |.......|\n");
}

#[test]
fn one_byte_modes() {
    let mut opts = Options::default();
    opts.width = 3;
    let src = [0x00, 0x41, 0xff];
    opts.mode = DisplayMode::OneByteHex;
    assert_eq!(generic(&opts, &src, 0), "00000000:   00  41  ff\n");
    opts.uppercase = true;
    assert_eq!(generic(&opts, &src, 0), "00000000:   00  41  FF\n");
    opts.mode = DisplayMode::OneByteOctal;
    assert_eq!(generic(&opts, &src, 0), "00000000:  000 101 377\n");
    opts.mode = DisplayMode::OneByteDecimal;
    assert_eq!(generic(&opts, &src, 0), "00000000:  000 065 255\n");
    opts.mode = DisplayMode::OneByteChar;
    assert_eq!(generic(&opts, &src, 0), "00000000:   \0   A 377\n");
    assert_eq!(generic(&opts, b"\x07\x1f", 0), "00000000:   \x07 037    \n");
}

#[test]
fn binary_mode() {
    let mut opts = Options::default();
    opts.mode = DisplayMode::Binary;
    opts.width = 8;
    assert_eq!(
        generic(&opts, &[0x05, 0x80], 8),
        format!("00000008:  00000101 10000000{}\n", " ".repeat(54))
    );
}

#[test]
fn two_byte_modes() {
    let mut opts = Options::default();
    opts.width = 4;
    opts.group = 2;
    let src = [0x12, 0x34, 0xff, 0xff];
    opts.mode = DisplayMode::TwoByteHex;
    assert_eq!(generic(&opts, &src, 0), "00000000:  1234 ffff\n");
    assert_eq!(generic(&opts, &src[..1], 0), "00000000:  0012     \n");
    opts.mode = DisplayMode::TwoByteOctal;
    assert_eq!(generic(&opts, &src, 0), "00000000:  011064 177777\n");
    opts.mode = DisplayMode::TwoByteDecimal;
    assert_eq!(generic(&opts, &src, 0), "00000000:  04660 65535\n");
    opts.endian = Endian::Little;
    assert_eq!(generic(&opts, &src, 0), "00000000:  13330 65535\n");
    opts.mode = DisplayMode::TwoByteHex;
    assert_eq!(generic(&opts, &src, 0), "00000000:  3412 ffff\n");
}

#[test]
fn groups_of_eight_in_wide_modes() {
    let mut opts = Options::default();
    opts.width = 8;
    opts.group = 8;
    opts.mode = DisplayMode::TwoByteHex;
    let src = [1, 2, 3, 4, 5, 6, 7, 8];
    assert_eq!(
        generic(&opts, &src, 0),
        format!("00000000:  0102030405060708{}\n", " ".repeat(51))
    );
}

#[test]
fn numbers_from_bytes() {
    assert_eq!(read_le_u64(&[0x01, 0x02, 0x03], 2, Endian::Big), 0x0102);
    assert_eq!(read_le_u64(&[0x01, 0x02, 0x03], 3, Endian::Little), 0x030201);
    assert_eq!(read_le_u64(&[9; 9], 9, Endian::Big), 0x0909_0909_0909_0909);
    assert_eq!(read_le_u64(&[], 0, Endian::Big), 0);
}

#[test]
fn minimal_rows() {
    let mut opts = Options::default();
    opts.minimal = true;
    assert_eq!(generic(&opts, b"Hi\n", 0x30), "00000030 48690a Hi.\n");
    opts.no_ascii = true;
    opts.uppercase = true;
    assert_eq!(generic(&opts, b"Hi\n", 0x30), "00000030 48690A\n");
    opts.no_position = true;
    assert_eq!(generic(&opts, b"Hi\n", 0x30), "48690A\n");
}

#[test]
fn hidden_columns() {
    let mut opts = Options::default();
    opts.width = 2;
    opts.no_position = true;
    assert_eq!(generic(&opts, b"AB", 0), "41  42  |AB|\n");
    opts.no_ascii = true;
    assert_eq!(generic(&opts, b"AB", 0), "41  42\n");
}

#[test]
fn decimal_offsets_and_capitals() {
    let mut opts = Options::default();
    opts.width = 2;
    opts.offset_dec = true;
    assert_eq!(generic(&opts, b"AB", 4096), "00004096: 41  42  |AB|\n");
    opts.offset_dec = false;
    opts.uppercase = true;
    assert_eq!(generic(&opts, &[0xab, 0xcd], 0xabcd), "0000ABCD: AB  CD  |..|\n");
}

#[test]
fn offsets_grow_past_eight_digits() {
    let mut out = Vec::new();
    assert_eq!(write_offset(&mut out, 0xffff_ffff, false, false), 8);
    assert_eq!(write_offset(&mut out, 0x1_0000_0000, false, false), 9);
    assert_eq!(write_offset(&mut out, u64::MAX, false, true), 16);
    assert_eq!(write_offset(&mut out, 123_456_789, true, false), 9);
    assert_eq!(out, b"ffffffff100000000FFFFFFFFFFFFFFFF123456789");
    assert_eq!(offset_len(0), 8);
    assert_eq!(offset_len(0xf_ffff_ffff), 9);
    assert_eq!(offset_len(0x10_0000_0000), 10);
    assert_eq!(offset_len(u64::MAX), 16);
    let mut opts = Options::default();
    assert_eq!(field_len_for(&opts, 100_000_000), 8);
    opts.offset_dec = true;
    assert_eq!(field_len_for(&opts, 99_999_999), 8);
    assert_eq!(field_len_for(&opts, 100_000_000), 9);
    assert_eq!(field_len_for(&opts, u64::MAX), 20);
}

#[test]
fn character_tables() {
    assert_eq!(panel(CharTable::Ascii, &[0x00, 0x20, 0x7e, 0x7f, 0xff]), ". ~..");
    assert_eq!(panel(CharTable::Default, &[0x00, 0x20, 0x7e, 0x7f, 0xff]), "⋄ ~••");
    assert_eq!(panel(CharTable::Braille, &[0x00, 0x01, 0xff]), "⠀⠁⣿");
    assert_eq!(panel(CharTable::Cp437, &[0x00, 0x01, 0x41, 0x7f, 0xe1, 0xff]), " ☺A⌂ß ");
    assert_eq!(panel(CharTable::Ebcdic, &[0x40, 0xc1, 0xd1, 0xe2, 0xf9, 0x81, 0x6f, 0x00]), " AJS9a?.");
    assert_eq!(braille_for_byte(0xff), [0xe2, 0xa3, 0xbf]);
    assert_eq!(ebcdic_char(0x7f), b'"');
    assert_eq!(ebcdic_char(0xea), b'.');
}

#[test]
fn rows_with_other_tables() {
    let mut opts = Options::default();
    opts.width = 2;
    opts.table = CharTable::Braille;
    assert_eq!(line(&opts, &[0x00, 0xff], 0, false), "00000000: 00  ff  |⠀⣿|\n");
    opts.table = CharTable::Cp437;
    assert_eq!(generic(&opts, &[0x01, 0x02], 0), "00000000: 01  02  |☺☻|\n");
}

#[test]
fn rows_inside_a_border() {
    let mut opts = Options::default();
    opts.width = 2;
    opts.border = BorderStyle::Ascii;
    assert_eq!(generic(&opts, b"AB", 0), "|00000000:        |41  42 |AB |\n");
    assert_eq!(line(&opts, b"A", 0, false), "|00000000:        |41     |A  |\n");
    opts.border = BorderStyle::Unicode;
    assert_eq!(line(&opts, b"AB", 0, false), "│00000000:        │41  42 │AB │\n");
    opts.no_position = true;
    assert_eq!(generic(&opts, b"AB", 0), "│41  42 │AB │\n");
    opts.mode = DisplayMode::OneByteHex;
    assert_eq!(generic(&opts, b"AB", 0), "│  41  42 │\n");
}

#[test]
fn ascii_border_lines() {
    let mut out = Vec::new();
    border_top(&mut out, 8, 6, 4, true, true, BorderStyle::Ascii);
    border_header(&mut out, 8, 6, 4, true, true, BorderStyle::Ascii);
    border_sep(&mut out, 8, 6, 4, true, false, BorderStyle::Ascii);
    border_bottom(&mut out, 8, 6, 4, false, true, BorderStyle::Ascii);
    assert_eq!(
        String::from_utf8(out).unwrap(),
        "+--------+-------+-----+\n| offset |  hex  | ascii|\n+--------+-------+\n+-------+-----+\n"
    );
}

#[test]
fn unicode_border_lines() {
    let mut out = Vec::new();
    border_top(&mut out, 3, 1, 1, true, true, BorderStyle::Unicode);
    border_header(&mut out, 9, 5, 9, true, true, BorderStyle::Unicode);
    border_sep(&mut out, 3, 1, 1, true, true, BorderStyle::Unicode);
    border_bottom(&mut out, 3, 1, 1, true, true, BorderStyle::Unicode);
    border_top(&mut out, 3, 1, 1, false, false, BorderStyle::Unicode);
    border_bottom(&mut out, 3, 1, 1, false, false, BorderStyle::Off);
    assert_eq!(
        String::from_utf8(out).unwrap(),
        "┌───┬──┬──┐\n│ offset  │  hex │   ascii  │\n├───┼──┼──┤\n└───┴──┴──┘\n┌──┐\n"
    );
}

#[test]
fn head_of_a_bordered_dump() {
    let mut opts = Options::default();
    let mut out = Vec::new();
    push_head(&mut out, &opts);
    assert!(out.is_empty());
    opts.border = BorderStyle::Ascii;
    opts.width = 4;
    push_head(&mut out, &opts);
    let edge = "+-----------------+-------------+-----+\n";
    assert_eq!(
        String::from_utf8(out).unwrap(),
        format!("{}|     offset      |     hex     | ascii|\n{}", edge, edge)
    );
    let c = columns_of(&opts);
    assert_eq!((c.pos_w, c.hex_w, c.ascii_w), (17, 12, 4));
}

#[test]
fn widths_of_the_main_section() {
    let mut opts = Options::default();
    assert_eq!(hex_width(&opts), 48);
    opts.group = 4;
    assert_eq!(hex_width(&opts), 50);
    opts.minimal = true;
    assert_eq!(hex_width(&opts), 32);
    opts.mode = DisplayMode::OneByteOctal;
    assert_eq!(hex_width(&opts), 64);
    opts.mode = DisplayMode::TwoByteHex;
    assert_eq!(hex_width(&opts), 36);
    opts.mode = DisplayMode::TwoByteOctal;
    assert_eq!(hex_width(&opts), 52);
    opts.mode = DisplayMode::TwoByteDecimal;
    assert_eq!(hex_width(&opts), 24);
    opts.mode = DisplayMode::Binary;
    assert_eq!(hex_width(&opts), 72);
    opts.mode = DisplayMode::Plain;
    assert_eq!(hex_width(&opts), 48);
}

#[test]
fn joints_stand_over_the_bars() {
    for width in [2usize, 4, 16, 22] {
        let mut opts = Options::default();
        opts.border = BorderStyle::Ascii;
        opts.width = width;
        let c = columns_of(&opts);
        let mut top = Vec::new();
        border_top(&mut top, c.pos_w, c.hex_w, c.ascii_w, true, true, BorderStyle::Ascii);
        let mut bottom = Vec::new();
        border_bottom(&mut bottom, c.pos_w, c.hex_w, c.ascii_w, true, true, BorderStyle::Ascii);
        assert_eq!(top, bottom);
        for n in 1..=width {
            let src = vec![0x41u8; n];
            for row in [generic(&opts, &src, 0), line(&opts, &src, 0, false)] {
                assert_eq!(row.len(), top.len());
                for (edge, b) in top.iter().zip(row.bytes()) {
                    assert_eq!(*edge == b'+', b == b'|');
                }
            }
        }
    }
}

#[test]
fn decimal_offsets_are_read_back() {
    for off in [0u64, 7, 99_999_999, 100_000_000, 4_294_967_296, u64::MAX] {
        let mut out = Vec::new();
        let n = write_offset(&mut out, off, true, false);
        assert_eq!(n, out.len());
        let digits = String::from_utf8(out).unwrap();
        assert_eq!(digits.parse::<u64>().unwrap(), off);
        assert!(n == 8 || n > 8 && !digits.starts_with('0'));
    }
}
