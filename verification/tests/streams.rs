use fasthex::dump::{run_parallel_mmap, run_parallel_scalar, run_serial_mmap};
use fasthex::input::resolve_skip;
use fasthex::layout::RowCfg;
use fasthex::options::{BorderStyle, CharTable, DisplayMode, Options};
use fasthex::row::LayoutKind;
use fasthex::stream::{first_offset, read_limit, run_streaming, Stream};

fn text(bytes: Vec<u8>) -> String {
    String::from_utf8(bytes).unwrap()
}

fn narrow() -> Options {
    let mut opts = Options::default();
    opts.width = 2;
    opts
}

#[test]
fn dump_of_a_stream() {
    let opts = narrow();
    assert_eq!(
        text(run_streaming(&opts, &vec![b"ABC".to_vec()], false, true)),
        "00000000: 41  42  |AB|\n00000002: 43      |C|\n00000003\n"
    );
    for simd in [false, true] {
        assert_eq!(
            text(run_streaming(&Options::default(), &vec![b"AB".to_vec()], false, simd)),
            "00000000: 41 42                                             |AB              |\n\
             00000002\n"
        );
    }
    assert_eq!(text(run_streaming(&opts, &vec![], false, true)), "00000000\n");
}

#[test]
fn stream_pieces_do_not_matter() {
    let data: Vec<u8> = (0..200u32).map(|i| (i / 50) as u8).collect();
    for squeeze in [false, true] {
        for max_lines in [None, Some(3u64)] {
            let mut opts = Options::default();
            opts.width = 5;
            opts.squeeze = squeeze;
            opts.max_lines = max_lines;
            let whole = run_streaming(&opts, &vec![data.clone()], false, true);
            for size in [1usize, 2, 3, 7, 64] {
                let pieces: Vec<Vec<u8>> = data.chunks(size).map(|c| c.to_vec()).collect();
                assert_eq!(run_streaming(&opts, &pieces, false, true), whole);
            }
        }
    }
}

#[test]
fn stream_and_file_agree() {
    let mut opts = Options::default();
    opts.skip = 32;
    opts.jump = -5;
    for n in [0usize, 1, 16, 63, 64] {
        let data: Vec<u8> = (0..n as u8).collect();
        assert_eq!(
            run_streaming(&opts, &vec![data.clone()], false, true),
            run_parallel_mmap(&opts, &data, 27, false, 2)
        );
        assert_eq!(
            run_streaming(&opts, &vec![data.clone()], false, false),
            run_parallel_scalar(&opts, &data, 27, false, 2)
        );
    }
}

#[test]
fn stream_limits_lines() {
    let mut opts = narrow();
    opts.squeeze = true;
    opts.max_lines = Some(3);
    assert_eq!(
        text(run_streaming(&opts, &vec![b"AAAAAABBCC".to_vec()], false, false)),
        "00000000: 41  41  |AA|\n*\n00000006: 42  42  |BB|\n00000008\n"
    );
    let serial = text(run_serial_mmap(&opts, b"AAAAAABBCC", 0, false, false));
    assert_eq!(serial, "00000000: 41  41  |AA|\n*\n00000006: 42  42  |BB|\n0000000a\n");
}

#[test]
fn stream_with_a_border() {
    let mut opts = narrow();
    opts.border = BorderStyle::Unicode;
    opts.no_position = true;
    assert_eq!(
        text(run_streaming(&opts, &vec![b"AB".to_vec()], false, true)),
        "┌───────┬───┐\n│  hex  │ ascii│\n├───────┼───┤\n│41  42 │AB │\n└───────┴───┘\n"
    );
}

#[test]
fn stream_with_a_border_and_positions() {
    let mut opts = narrow();
    opts.border = BorderStyle::Ascii;
    let edge = "+-----------------+-------+---+\n";
    assert_eq!(
        text(run_streaming(&opts, &vec![b"ABC".to_vec()], false, true)),
        format!(
            "{}|     offset      |  hex  | ascii|\n{}\
             |00000000:        |41  42 |AB |\n|00000002:        |43     |C  |\n\
             00000003\n{}",
            edge, edge, edge
        )
    );
}

#[test]
fn streams_do_not_depend_on_the_machine() {
    let data: Vec<u8> = (0..=255u8).chain(0..9u8).collect();
    for table in [CharTable::Ascii, CharTable::Default, CharTable::Braille] {
        for border in [BorderStyle::Off, BorderStyle::Ascii, BorderStyle::Unicode] {
            for width in [3usize, 16] {
                for color in [false, true] {
                    let mut opts = Options::default();
                    opts.table = table;
                    opts.border = border;
                    opts.width = width;
                    assert_eq!(
                        run_streaming(&opts, &vec![data.clone()], color, true),
                        run_streaming(&opts, &vec![data.clone()], color, false)
                    );
                }
            }
        }
    }
}

#[test]
fn stream_without_positions() {
    let mut opts = Options::default();
    opts.no_position = true;
    assert_eq!(
        text(run_streaming(&opts, &vec![vec![0x41; 16]], false, true)),
        "41 41 41 41 41 41 41 41  41 41 41 41 41 41 41 41  |AAAAAAAAAAAAAAAA|\n"
    );
    opts.width = 2;
    opts.no_ascii = true;
    opts.squeeze = true;
    opts.max_lines = Some(2);
    assert_eq!(
        text(run_streaming(&opts, &vec![b"AAAABB".to_vec()], false, true)),
        "41  41\n*\n"
    );
}

#[test]
fn stream_in_custom_rows() {
    let mut opts = Options::default();
    opts.formats = vec![String::from("\"%08_ax \" 2/1 \"<%02x>\" \"\\n\"")];
    opts.length = Some(5);
    opts.skip = 0x10;
    opts.jump = 0x100;
    let whole = "00000110 <41><42>\n00000112 <43><44>\n00000114 <45><00>\n";
    for size in [1usize, 2, 3, 7] {
        let pieces: Vec<Vec<u8>> = b"ABCDEFG".chunks(size).map(|c| c.to_vec()).collect();
        assert_eq!(text(run_streaming(&opts, &pieces, false, true)), whole);
    }
    opts.max_lines = Some(1);
    assert_eq!(
        text(run_streaming(&opts, &vec![b"ABCDEFG".to_vec()], true, false)),
        "00000110 <41><42>\n"
    );
    assert_eq!(first_offset(&opts), 0x110);
}

#[test]
fn bytes_counted_from_the_end() {
    let mut opts = narrow();
    opts.skip = -3;
    opts.jump = 0x10;
    assert_eq!(first_offset(&opts), 0x10);
    let data = b"ABCDE";
    let resolved = resolve_skip(opts.clone(), data.len());
    assert_eq!(resolved.skip, 2);
    assert_eq!(first_offset(&resolved), 0x12);
    assert_eq!(
        text(run_streaming(&resolved, &vec![data[2..].to_vec()], false, true)),
        "00000012: 43  44  |CD|\n00000014: 45      |E|\n00000015\n"
    );
    opts.skip = -9;
    assert_eq!(resolve_skip(opts.clone(), data.len()).skip, 0);
    opts.skip = 9;
    assert_eq!(resolve_skip(opts, data.len()).skip, 5);
}

#[test]
fn stream_start_and_jump() {
    let mut opts = narrow();
    opts.skip = 0x10;
    opts.jump = 0x100;
    opts.mode = DisplayMode::OneByteHex;
    assert_eq!(
        text(run_streaming(&opts, &vec![b"AB".to_vec()], false, true)),
        "00000110:   41  42\n00000112\n"
    );
}

#[test]
fn how_much_is_read() {
    assert_eq!(read_limit(None, 7, 100), 100);
    assert_eq!(read_limit(Some(50), 7, 100), 43);
    assert_eq!(read_limit(Some(500), 7, 100), 100);
    assert_eq!(read_limit(Some(5), 7, 100), 0);
}

#[test]
fn stream_state() {
    let mut opts = narrow();
    opts.length = Some(5);
    let mut out = Vec::new();
    let mut s = Stream::open(&opts, &mut out);
    assert!(out.is_empty());
    assert_eq!(s.wanted(&opts, 100), 5);
    let cfg = RowCfg::new(&opts, LayoutKind::Generic, LayoutKind::Generic, false);
    s.feed(&cfg, b"ABC", &mut out);
    assert_eq!(s.carry, b"C");
    assert_eq!(s.total, 3);
    assert_eq!(s.wanted(&opts, 100), 2);
    s.feed(&cfg, b"DE", &mut out);
    assert_eq!(s.carry, b"E");
    assert_eq!(s.wanted(&opts, 100), 0);
    s.close(&cfg, &mut out);
    assert_eq!(
        text(out),
        "00000000: 41  42  |AB|\n00000002: 43  44  |CD|\n00000004: 45      |E|\n00000005\n"
    );
}
