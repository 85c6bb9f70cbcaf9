use fasthex::layout::{
    build_layout, format_row, has_shape, has_template, write_prefix, HexWin, RowCfg,
};
use fasthex::length::row_len_delta;
use fasthex::options::{BorderStyle, CharTable, ColorScheme, DisplayMode, Endian, Options};
use fasthex::row::{field_len_for, format_scalar_row, push_row, write_offset, LayoutKind};

fn bytes(n: usize) -> Vec<u8> {
    (0..n).map(|i| (i * 37 + 11) as u8).collect()
}

fn check(opts: &Options, kind: LayoutKind, n: usize, color: bool) -> bool {
    if !has_template(kind, opts, n, color) {
        return false;
    }
    let layout = build_layout(opts, n, kind, color);
    for off in [0u64, 0x1234, 0xffff_ffff, 0x1_0000_0000, u64::MAX] {
        let src = bytes(n);
        let mut made = Vec::new();
        format_row(&mut made, &src, off, kind, opts, color, &layout);
        let mut expected = Vec::new();
        push_row(&mut expected, kind, &src, off, opts, color);
        assert_eq!(made, expected);
    }
    true
}

#[test]
fn templates_make_the_same_rows() {
    let mut made = 0;
    for mode in [DisplayMode::Canonical, DisplayMode::OneByteHex, DisplayMode::TwoByteHex] {
        for (width, group) in [(16, 1), (16, 4), (20, 2), (5, 1), (8, 8)] {
            for endian in [Endian::Big, Endian::Little] {
                for border in [BorderStyle::Off, BorderStyle::Ascii, BorderStyle::Unicode] {
                    for flags in 0..16u8 {
                        let mut opts = Options::default();
                        opts.mode = mode;
                        opts.width = width;
                        opts.group = group;
                        opts.endian = endian;
                        opts.border = border;
                        opts.no_ascii = flags & 1 != 0;
                        opts.no_position = flags & 2 != 0;
                        opts.uppercase = flags & 4 != 0;
                        opts.minimal = flags & 8 != 0;
                        for kind in [LayoutKind::Generic, LayoutKind::OutputLine] {
                            for n in [width, width - 1] {
                                if check(&opts, kind, n, false) {
                                    made += 1;
                                }
                            }
                        }
                    }
                }
            }
        }
    }
    assert!(made > 2000);
}

#[test]
fn templates_in_color_and_braille() {
    let mut opts = Options::default();
    assert!(check(&opts, LayoutKind::OutputLine, 16, true));
    assert!(check(&opts, LayoutKind::OutputLine, 3, true));
    assert!(check(&opts, LayoutKind::Scalar, 7, false));
    opts.border = BorderStyle::Unicode;
    assert!(check(&opts, LayoutKind::OutputLine, 16, true));
    opts.table = CharTable::Braille;
    assert!(check(&opts, LayoutKind::OutputLine, 16, false));
    assert!(check(&opts, LayoutKind::Generic, 9, false));
}

#[test]
fn template_of_the_default_rows() {
    let mut opts = Options::default();
    let l = build_layout(&opts, 16, LayoutKind::Generic, false);
    assert_eq!((l.base.len(), l.panel_off, l.windows.len()), (69, 51, 4));
    opts.width = 8;
    let l = build_layout(&opts, 8, LayoutKind::Generic, false);
    assert_eq!((l.base.len(), l.panel_off, l.windows.len()), (37, 27, 2));
}

/// The bytes whose digits windows show, and the place of each.
fn places(windows: &[HexWin]) -> Vec<(usize, usize)> {
    let mut out = Vec::new();
    for w in windows {
        let first = w.block * 16 + if w.hi { 8 } else { 0 };
        for (k, i) in w.idx.iter().enumerate() {
            if *i >= 0 && i % 2 == 0 {
                assert_eq!(w.idx[k + 1], i + 1);
                out.push((first + *i as usize / 2, w.off + k));
            }
        }
    }
    out
}

#[test]
fn windows_of_the_default_rows() {
    let opts = Options::default();
    let l = build_layout(&opts, 16, LayoutKind::Generic, false);
    let shown: Vec<(usize, usize, bool)> =
        l.windows.iter().map(|w| (w.off, w.block, w.hi)).collect();
    assert_eq!(shown, vec![(0, 0, false), (15, 0, false), (25, 0, true), (40, 0, true)]);
    let expected: Vec<(usize, usize)> =
        (0..16usize).map(|i| (i, 3 * i + if i < 8 { 0 } else { 1 })).collect();
    assert_eq!(places(&l.windows), expected);
}

#[test]
fn samples_with_other_tables() {
    for table in [
        CharTable::Ascii,
        CharTable::Default,
        CharTable::Braille,
        CharTable::Cp437,
        CharTable::Ebcdic,
    ] {
        for endian in [Endian::Big, Endian::Little] {
            for n in [1usize, 7, 16] {
                let mut opts = Options::default();
                opts.table = table;
                opts.group = 2;
                opts.endian = endian;
                let l = build_layout(&opts, n, LayoutKind::Generic, false);
                let mut row = Vec::new();
                opts.endian = Endian::Big;
                push_row(&mut row, LayoutKind::Generic, &vec![0x55; n], 0, &opts, false);
                assert_eq!(l.base, &row[10..]);
                assert_eq!(l.base[l.panel_off - 1], b'|');
                let digits = places(&l.windows);
                assert_eq!(digits.len(), n);
                for (q, at) in digits {
                    assert!(q < n);
                    assert_eq!(&l.base[at..at + 2], b"55");
                }
                for w in &l.windows {
                    assert!(w.off < l.base.len());
                }
                assert_eq!(l.count, n);
            }
        }
    }
}

#[test]
fn samples_of_rows_without_hexadecimal_digits() {
    let mut opts = Options::default();
    opts.mode = DisplayMode::OneByteOctal;
    opts.width = 2;
    let l = build_layout(&opts, 2, LayoutKind::Generic, false);
    assert_eq!(l.base, b" 125 125\n");
    assert_eq!((l.panel_off, l.windows.len()), (9, 0));
    assert!(!has_shape(LayoutKind::Generic, &opts, 2, false));
}

#[test]
fn some_rows_have_no_template() {
    let mut opts = Options::default();
    assert!(has_template(LayoutKind::Generic, &opts, 16, false));
    opts.scheme = ColorScheme::Type;
    assert!(!has_template(LayoutKind::OutputLine, &opts, 16, true));
    assert!(has_template(LayoutKind::OutputLine, &opts, 16, false));
    opts.table = CharTable::Cp437;
    assert!(!has_template(LayoutKind::Generic, &opts, 16, false));
    opts.table = CharTable::Ascii;
    opts.mode = DisplayMode::OneByteOctal;
    assert!(!has_template(LayoutKind::Generic, &opts, 16, false));
    opts.mode = DisplayMode::TwoByteHex;
    opts.endian = Endian::Little;
    assert!(has_template(LayoutKind::Generic, &opts, 16, false));
    assert!(!has_template(LayoutKind::Generic, &opts, 15, false));
}

#[test]
fn prepared_rows_are_full_or_short() {
    let opts = Options::default();
    let cfg = RowCfg::new(&opts, LayoutKind::Generic, LayoutKind::Scalar, false);
    let mut out = Vec::new();
    cfg.push(&mut out, b"0123456789abcdef", 0);
    cfg.push(&mut out, b"gh", 16);
    assert_eq!(
        String::from_utf8(out).unwrap(),
        "00000000: 30 31 32 33 34 35 36 37  38 39 61 62 63 64 65 66  |0123456789abcdef|\n\
         00000010: 67 68                                            |gh              |\n"
    );
}

#[test]
fn offset_columns() {
    let mut opts = Options::default();
    let mut out = Vec::new();
    assert_eq!(write_prefix(&mut out, 1, LayoutKind::Generic, &opts, false), 10);
    assert_eq!(write_prefix(&mut out, 1, LayoutKind::OutputLine, &opts, true), 19);
    opts.minimal = true;
    assert_eq!(write_prefix(&mut out, 1, LayoutKind::Generic, &opts, false), 9);
    assert_eq!(
        String::from_utf8(out).unwrap(),
        "00000001: \x1b[36m00000001:\x1b[0m 00000001 "
    );
}

#[test]
fn decimal_offsets_in_every_kind_of_row() {
    let mut opts = Options::default();
    opts.offset_dec = true;
    for kind in [LayoutKind::Generic, LayoutKind::OutputLine, LayoutKind::Scalar] {
        let mut out = Vec::new();
        assert_eq!(write_prefix(&mut out, 100_000_000, kind, &opts, false), 11);
        assert_eq!(out, b"100000000: ");
        let mut row = Vec::new();
        push_row(&mut row, kind, b"AB", 100_000_000, &opts, false);
        assert!(row.starts_with(b"100000000: 41 42 "));
        assert!(check(&opts, kind, 16, false));
    }
    opts.offset_dec = false;
    let mut made = Vec::new();
    push_row(&mut made, LayoutKind::Scalar, b"AB", 0xabc, &opts, false);
    let mut expected = Vec::new();
    format_scalar_row(&mut expected, b"AB", 0xabc, false);
    assert_eq!(made, expected);
}

#[test]
fn lengths_of_offset_columns() {
    for border in [BorderStyle::Off, BorderStyle::Ascii, BorderStyle::Unicode] {
        for flags in 0..8u8 {
            for kind in [LayoutKind::Generic, LayoutKind::OutputLine, LayoutKind::Scalar] {
                for color in [false, true] {
                    let mut opts = Options::default();
                    opts.border = border;
                    opts.no_position = flags & 1 != 0;
                    opts.offset_dec = flags & 2 != 0;
                    opts.minimal = flags & 4 != 0;
                    let cfg = RowCfg::new(&opts, kind, kind, color);
                    for off in [0u64, 0xffff_ffff, 100_000_000, 0x1_0000_0000, u64::MAX] {
                        let mut digits = Vec::new();
                        let field = write_offset(&mut digits, off, opts.offset_dec, false);
                        let mut out = Vec::new();
                        let n = write_prefix(&mut out, off, kind, &opts, color);
                        assert_eq!(n, out.len());
                        assert_eq!(n, cfg.prefix_len(field));
                        assert_eq!(field, field_len_for(&opts, off));
                    }
                }
            }
        }
    }
}

#[test]
fn rows_of_one_length_stand_side_by_side() {
    let opts = Options::default();
    let cfg = RowCfg::new(&opts, LayoutKind::Generic, LayoutKind::OutputLine, false);
    let data = bytes(64);
    let mut all = Vec::new();
    let mut rows = Vec::new();
    for i in 0..4usize {
        let src = &data[16 * i..16 * i + 16];
        cfg.push(&mut all, src, 16 * i as u64);
        let mut row = Vec::new();
        push_row(&mut row, LayoutKind::Generic, src, 16 * i as u64, &opts, false);
        rows.push(row);
    }
    let len = rows[0].len();
    for (i, row) in rows.iter().enumerate() {
        assert_eq!(&all[len * i..len * (i + 1)], &row[..]);
    }
    assert_eq!(all.len(), 4 * len);
}

#[test]
fn lengths_differ_by_the_characters() {
    let mut opts = Options::default();
    let plain = [0x55u8; 16];
    let mixed = [
        0u8, 1, 2, 0x41, 0x7f, 0x80, 0xe1, 0xff, 7, 10, 13, 0x20, 0x30, 0xb0, 0xc5, 0xf0,
    ];
    for table in [CharTable::Cp437, CharTable::Default, CharTable::Ascii] {
        opts.table = table;
        for kind in [LayoutKind::Generic, LayoutKind::OutputLine] {
            let mut a = Vec::new();
            push_row(&mut a, kind, &plain, 0, &opts, false);
            let mut b = Vec::new();
            push_row(&mut b, kind, &mixed, 0, &opts, false);
            assert_eq!(b.len() as i64 - a.len() as i64, row_len_delta(&opts, &mixed));
        }
    }
    let other = [0x41u8; 16];
    for table in [
        CharTable::Cp437,
        CharTable::Default,
        CharTable::Ascii,
        CharTable::Braille,
        CharTable::Ebcdic,
    ] {
        opts.table = table;
        for mode in [DisplayMode::Canonical, DisplayMode::OneByteChar] {
            opts.mode = mode;
            for n in 0..=16usize {
                let mut a = Vec::new();
                push_row(&mut a, LayoutKind::Generic, &mixed[..n], 7, &opts, false);
                let mut b = Vec::new();
                push_row(&mut b, LayoutKind::Generic, &other[..n], 7, &opts, false);
                assert_eq!(
                    a.len() as i64 - b.len() as i64,
                    row_len_delta(&opts, &mixed[..n]) - row_len_delta(&opts, &other[..n])
                );
            }
        }
    }
    opts.mode = DisplayMode::Canonical;
    opts.table = CharTable::Default;
    assert_eq!(row_len_delta(&opts, &[0, 0x41, 0x80]), 4);
    opts.mode = DisplayMode::OneByteChar;
    assert_eq!(row_len_delta(&opts, &mixed), -4);
}
