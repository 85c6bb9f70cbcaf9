use fasthex::dump::{
    advance, chunk_ranges, display_start, finish_rows, format_rows, is_simd_eligible,
    memory_style, old_simd_eligible, plan, push_footer, push_offset_line, push_stream_footer, run_parallel_mmap,
    run_parallel_scalar, run_serial_mmap, select_range, stream_plan, stream_style, walk_rows, Plan,
    Progress,
};
use fasthex::layout::RowCfg;
use fasthex::options::{BorderStyle, CharTable, ColorScheme, DisplayMode, Options};
use fasthex::plan::{plan_chunks, row_bounds};
use fasthex::row::LayoutKind;

fn text(bytes: Vec<u8>) -> String {
    String::from_utf8(bytes).unwrap()
}

fn narrow() -> Options {
    let mut opts = Options::default();
    opts.width = 2;
    opts
}

#[test]
fn dump_of_a_short_file() {
    let opts = Options::default();
    let expected =
        "00000000: 30 31 32 33 34 35 36 37  38 39 61 62 63 64 65 66  |0123456789abcdef|\n\
         00000010: 58 59                                             |XY              |\n\
         00000012\n";
    assert_eq!(text(run_parallel_mmap(&opts, b"0123456789abcdefXY", 0, false, 100)), expected);
    assert_eq!(text(run_parallel_scalar(&opts, b"0123456789abcdefXY", 0, false, 100)), expected);
    assert_eq!(text(run_serial_mmap(&opts, b"0123456789abcdefXY", 0, false, false)), expected);
    assert_eq!(text(run_serial_mmap(&opts, b"0123456789abcdefXY", 0, false, true)), expected);
}

#[test]
fn dumps_do_not_depend_on_the_machine() {
    let data: Vec<u8> = (0..=255u8).chain(0..9u8).collect();
    for table in [CharTable::Ascii, CharTable::Default, CharTable::Braille, CharTable::Cp437] {
        for width in [2usize, 4, 16, 32] {
            for color in [false, true] {
                let mut opts = Options::default();
                opts.table = table;
                opts.width = width;
                let vector = run_parallel_mmap(&opts, &data, 0x10, color, 3);
                assert_eq!(run_parallel_scalar(&opts, &data, 0x10, color, 3), vector);
                assert_eq!(run_serial_mmap(&opts, &data, 0x10, color, true), vector);
                assert_eq!(run_serial_mmap(&opts, &data, 0x10, color, false), vector);
            }
        }
    }
}

#[test]
fn dump_without_positions() {
    let mut opts = narrow();
    opts.no_position = true;
    assert_eq!(text(run_parallel_mmap(&opts, b"ABC", 0, false, 1)), "41  42  |AB|\n43      |C|\n");
}

#[test]
fn dump_inside_a_border() {
    let mut opts = narrow();
    opts.border = BorderStyle::Ascii;
    let edge = "+-----------------+-------+---+\n";
    assert_eq!(
        text(run_parallel_mmap(&opts, b"AB", 0, false, 1)),
        format!(
            "{}|     offset      |  hex  | ascii|\n{}|00000000:        |41  42 |AB |\n{}",
            edge, edge, edge
        )
    );
}

#[test]
fn dump_in_compact_rows() {
    let mut opts = narrow();
    opts.minimal = true;
    assert_eq!(
        text(run_parallel_mmap(&opts, b"ABC", 0x10, false, 1)),
        "00000010 4142 AB\n00000012 43 C\n00000013\n"
    );
}

#[test]
fn dump_in_color() {
    let opts = narrow();
    assert_eq!(
        text(run_parallel_mmap(&opts, b"A", 0, true, 1)),
        "\x1b[36m00000000:\x1b[0m \x1b[32m41\x1b[0m      |\x1b[32mA\x1b[0m |\n\x1b[36m00000001\x1b[0m\n"
    );
}

#[test]
fn dumps_do_not_depend_on_the_pieces() {
    let data: Vec<u8> = (0..1000u32).map(|i| (i * i / 7) as u8).collect();
    for mode in [DisplayMode::Canonical, DisplayMode::OneByteOctal, DisplayMode::TwoByteHex] {
        for start in [0u64, 0xffff_ff00, u64::MAX - 300] {
            let mut opts = Options::default();
            opts.mode = mode;
            if mode == DisplayMode::TwoByteHex {
                opts.group = 2;
            }
            let whole = run_parallel_mmap(&opts, &data, start, false, 10_000);
            for size in [1, 2, 7, 62, 63] {
                assert_eq!(run_parallel_mmap(&opts, &data, start, false, size), whole);
            }
        }
    }
}

#[test]
fn rows_of_a_range_stand_alone() {
    let opts = narrow();
    let cfg = RowCfg::new(&opts, LayoutKind::OutputLine, LayoutKind::OutputLine, false);
    let data = b"ABCDEFG";
    let first = format_rows(&cfg, data, 0, 0, 1);
    let rest = format_rows(&cfg, data, 0, 1, 3);
    let all = format_rows(&cfg, data, 0, 0, 3);
    assert_eq!([first, rest.clone()].concat(), all);
    assert_eq!(text(rest), "00000002: 43  44  |CD|\n00000004: 45  46  |EF|\n");
    let mut out = Vec::new();
    finish_rows(&mut out, &cfg, data, 0);
    assert_eq!(text(out), "00000006: 47      |G |\n00000007\n");
}

#[test]
fn identical_rows_are_left_out() {
    let mut opts = narrow();
    opts.squeeze = true;
    assert_eq!(
        text(run_serial_mmap(&opts, b"AAAAAAAABBA", 0, false, false)),
        "00000000: 41  41  |AA|\n*\n00000008: 42  42  |BB|\n0000000a: 41      |A |\n0000000b\n"
    );
    assert_eq!(
        text(run_serial_mmap(&opts, b"AAAABBBB", 0, false, false)),
        "00000000: 41  41  |AA|\n*\n00000004: 42  42  |BB|\n*\n00000008\n"
    );
}

#[test]
fn the_number_of_lines_is_limited() {
    let mut opts = narrow();
    opts.max_lines = Some(2);
    assert_eq!(
        text(run_serial_mmap(&opts, b"ABCDEFG", 0, false, false)),
        "00000000: 41  42  |AB|\n00000002: 43  44  |CD|\n00000007\n"
    );
    opts.squeeze = true;
    assert_eq!(
        text(run_serial_mmap(&opts, b"AAAAAABB", 0, false, false)),
        "00000000: 41  41  |AA|\n*\n00000008\n"
    );
    opts.max_lines = Some(0);
    assert_eq!(text(run_serial_mmap(&opts, b"AAAAAABB", 0, false, false)), "00000008\n");
}

#[test]
fn both_ways_agree_where_no_row_is_left_out() {
    let opts = narrow();
    let data = b"ABABABABXYZ";
    assert_eq!(
        run_serial_mmap(&opts, data, 7, false, false),
        run_parallel_scalar(&opts, data, 7, false, 2)
    );
}

#[test]
fn progress_row_by_row() {
    let mut opts = narrow();
    opts.squeeze = true;
    opts.max_lines = Some(2);
    let cfg = RowCfg::new(&opts, LayoutKind::Generic, LayoutKind::Generic, false);
    let mut p = Progress::new(0x10);
    let mut out = Vec::new();
    assert!(!p.is_halted(&opts));
    walk_rows(&mut p, &cfg, b"ABAB", &mut out);
    assert_eq!(p.lines, 2);
    assert_eq!(p.offset, 0x14);
    assert_eq!(p.prev, b"AB");
    assert!(p.squeezed);
    assert!(p.is_halted(&opts));
    p.step(&cfg, b"CD", &mut out);
    assert_eq!(text(out), "00000010: 41  42  |AB|\n*\n");
    assert_eq!(p.offset, 0x14);
}

#[test]
fn which_bytes_are_shown() {
    let mut opts = Options::default();
    assert_eq!(select_range(&opts, 10), (0, 10));
    opts.skip = 3;
    assert_eq!(select_range(&opts, 10), (3, 10));
    opts.length = Some(4);
    assert_eq!(select_range(&opts, 10), (3, 7));
    opts.skip = -2;
    assert_eq!(select_range(&opts, 10), (8, 10));
    opts.skip = -20;
    assert_eq!(select_range(&opts, 10), (0, 4));
    opts.skip = i64::MAX;
    assert_eq!(select_range(&opts, 10), (10, 10));
    opts.skip = i64::MIN;
    opts.length = Some(0);
    assert_eq!(select_range(&opts, 10), (0, 0));
}

#[test]
fn displayed_offsets() {
    assert_eq!(display_start(5, 100), 105);
    assert_eq!(display_start(5, -3), 2);
    assert_eq!(display_start(0, -1), u64::MAX);
    assert_eq!(advance(u64::MAX, 3), 2);
    assert_eq!(advance(advance(9, 4), 6), advance(9, 10));
}

#[test]
fn lines_below_the_rows() {
    let mut opts = narrow();
    let mut out = Vec::new();
    push_offset_line(&mut out, &opts, true, 255);
    push_footer(&mut out, &opts, false, 255);
    opts.offset_dec = true;
    push_footer(&mut out, &opts, false, 255);
    opts.no_position = true;
    push_footer(&mut out, &opts, false, 255);
    opts.border = BorderStyle::Unicode;
    push_footer(&mut out, &opts, false, 255);
    push_stream_footer(&mut out, &opts, false, 255);
    opts.no_position = false;
    opts.border = BorderStyle::Off;
    push_stream_footer(&mut out, &opts, false, 255);
    assert_eq!(
        text(out),
        "\x1b[36m000000ff\x1b[0m\n000000ff\n00000255\n└───────┴───┘\n└───────┴───┘\n00000255\n"
    );
}

#[test]
fn what_is_made_of_a_file() {
    let mut opts = Options::default();
    assert_eq!(plan(&opts, 0), Plan::Nothing);
    assert_eq!(plan(&opts, 1), Plan::Parallel);
    opts.max_lines = Some(1);
    assert_eq!(plan(&opts, 1), Plan::Serial);
    opts.max_lines = None;
    opts.squeeze = true;
    assert_eq!(plan(&opts, 1), Plan::Serial);
    opts.formats = vec![String::from("\"%02x\"")];
    assert_eq!(plan(&opts, 1), Plan::Custom);
    opts.mode = DisplayMode::Plain;
    assert_eq!(plan(&opts, 1), Plan::Plain);
    opts.mode = DisplayMode::CInclude;
    assert_eq!(plan(&opts, 1), Plan::CInclude);
    assert_eq!(plan(&opts, 0), Plan::Nothing);
}

#[test]
fn what_is_made_of_a_stream() {
    let mut opts = Options::default();
    assert_eq!(stream_plan(&opts), Plan::Serial);
    opts.formats = vec![String::from("\"%02x\"")];
    assert_eq!(stream_plan(&opts), Plan::Custom);
    opts.mode = DisplayMode::Plain;
    assert_eq!(stream_plan(&opts), Plan::Plain);
    opts.mode = DisplayMode::CInclude;
    assert_eq!(stream_plan(&opts), Plan::CInclude);
}

#[test]
fn which_rows_are_used() {
    let mut opts = Options::default();
    assert!(old_simd_eligible(&opts));
    assert_eq!(memory_style(&opts, false, true).full, LayoutKind::Generic);
    assert_eq!(memory_style(&opts, false, true).tail, LayoutKind::OutputLine);
    assert_eq!(memory_style(&opts, false, false).full, LayoutKind::OutputLine);
    assert_eq!(memory_style(&opts, false, false).tail, LayoutKind::OutputLine);
    assert_eq!(stream_style(&opts, false, true).tail, LayoutKind::OutputLine);
    assert_eq!(stream_style(&opts, false, false).tail, LayoutKind::OutputLine);
    assert_eq!(stream_style(&opts, true, true).full, LayoutKind::OutputLine);
    assert!(is_simd_eligible(&opts, true));
    opts.mode = DisplayMode::OneByteHex;
    assert!(!is_simd_eligible(&opts, false));
    opts.mode = DisplayMode::TwoByteHex;
    opts.group = 2;
    assert!(!is_simd_eligible(&opts, false));
    opts.mode = DisplayMode::Canonical;
    opts.group = 1;
    opts.table = CharTable::Braille;
    assert!(is_simd_eligible(&opts, false));
    assert!(!is_simd_eligible(&opts, true));
    opts.table = CharTable::Ascii;
    opts.scheme = ColorScheme::Gradient;
    assert!(!is_simd_eligible(&opts, true));
    opts.border = BorderStyle::Ascii;
    assert!(!old_simd_eligible(&opts));
    assert_eq!(stream_style(&opts, false, true).full, LayoutKind::OutputLine);
    assert_eq!(stream_style(&opts, false, false).full, LayoutKind::OutputLine);
    opts.table = CharTable::Cp437;
    assert_eq!(stream_style(&opts, false, true).full, LayoutKind::Generic);
    opts.table = CharTable::Ascii;
    opts.minimal = true;
    assert_eq!(stream_style(&opts, true, true).full, LayoutKind::Generic);
    assert_eq!(memory_style(&opts, true, true).tail, LayoutKind::Generic);
}

#[test]
fn pieces_of_rows() {
    assert_eq!(chunk_ranges(0, 3), vec![]);
    assert_eq!(chunk_ranges(7, 3), vec![(0, 3), (3, 6), (6, 7)]);
    assert_eq!(chunk_ranges(6, 3), vec![(0, 3), (3, 6)]);
    assert_eq!(chunk_ranges(2, usize::MAX), vec![(0, 2)]);
}

#[test]
fn pieces_end_where_offsets_grow() {
    assert_eq!(row_bounds(0, 10, 16, false), vec![0, 10]);
    assert_eq!(row_bounds(0xffff_ffe0, 10, 16, false), vec![0, 2, 10]);
    assert_eq!(row_bounds(99_999_984, 10, 16, true), vec![0, 1, 10]);
    assert_eq!(row_bounds(0xffff_ffe8, 10, 16, false), vec![0, 2, 10]);
    assert_eq!(plan_chunks(0xffff_ffe0, 6, 16, false, 3), vec![(0, 2), (2, 5), (5, 6)]);
    assert_eq!(plan_chunks(0, 5, 16, false, 3), vec![(0, 3), (3, 5)]);
    assert_eq!(plan_chunks(0, 0, 16, false, 3), vec![]);
}

fn bare(text: &[u8]) -> Vec<u8> {
    let mut out = Vec::new();
    let mut at = 0;
    while at < text.len() {
        if text[at] == 0x1b {
            while at < text.len() && text[at] != b'm' {
                at += 1;
            }
        } else {
            out.push(text[at]);
        }
        at += 1;
    }
    out
}

#[test]
fn colors_add_escape_sequences_alone() {
    let data: Vec<u8> = (0..=255u8).chain(0..9u8).collect();
    for border in [BorderStyle::Off, BorderStyle::Ascii, BorderStyle::Unicode] {
        for table in [CharTable::Ascii, CharTable::Default, CharTable::Cp437, CharTable::Ebcdic] {
            for scheme in [ColorScheme::Default, ColorScheme::Type, ColorScheme::Gradient] {
                let mut opts = Options::default();
                opts.border = border;
                opts.table = table;
                opts.scheme = scheme;
                let colored = run_parallel_scalar(&opts, &data, 0, true, 3);
                let plain = run_parallel_scalar(&opts, &data, 0, false, 3);
                assert_ne!(colored, plain);
                assert_eq!(bare(&colored), plain);
            }
        }
    }
}

#[test]
fn no_more_lines_than_asked_for() {
    let data = b"AABBBBBBCCDDDDEE";
    for limit in 0..9u64 {
        let mut opts = narrow();
        opts.squeeze = true;
        opts.no_position = true;
        opts.max_lines = Some(limit);
        let out = run_serial_mmap(&opts, data, 0, false, false);
        let lines = out.iter().filter(|b| **b == b'\n').count() as u64;
        assert_eq!(lines, limit.min(7));
    }
}

#[test]
fn a_run_of_rows_leaves_one_mark() {
    let mut opts = narrow();
    opts.squeeze = true;
    opts.no_position = true;
    for n in 1..6usize {
        let out = text(run_serial_mmap(&opts, &b"AB".repeat(n), 0, false, false));
        let mark = if n > 1 { "*\n" } else { "" };
        assert_eq!(out, format!("41  42  |AB|\n{}", mark));
    }
}
