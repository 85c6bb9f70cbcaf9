use fasthex::dump::{run_parallel_mmap, run_serial_mmap};
use fasthex::options::{DisplayMode, Options};
use fasthex::plain::run_plain;
use fasthex::reverse::{hex_digit, parse_offset, run_reverse};
use fasthex::stream::run_streaming;

fn bytes(content: &[u8], jump: Option<i64>) -> Option<Vec<u8>> {
    let pieces = run_reverse(content, jump)?;
    let mut out = Vec::new();
    for p in &pieces {
        for _ in 0..p.times {
            out.extend_from_slice(&p.bytes);
        }
    }
    Some(out)
}

#[test]
fn rows_are_read_back() {
    assert_eq!(
        bytes(
            b"00000000: 7f 45 4c 46  02 01 |.ELF..|\n00000006: ff |.|\n00000007\n",
            None
        ),
        Some(vec![0x7f, 0x45, 0x4c, 0x46, 2, 1, 0xff])
    );
}

#[test]
fn what_a_dump_shows_is_read_back() {
    let data: Vec<u8> = (0..=255u8).chain(0..77u8).collect();
    for upper in [false, true] {
        for width in [1usize, 3, 16, 40] {
            let mut opts = Options::default();
            opts.uppercase = upper;
            opts.width = width;
            let dump = run_parallel_mmap(&opts, &data, 0, false, 4);
            assert_eq!(bytes(&dump, None), Some(data.clone()));
            let dump = run_streaming(&opts, &vec![data.clone()], false, true);
            assert_eq!(bytes(&dump, None), Some(data.clone()));
        }
    }
}

#[test]
fn left_out_rows_are_read_back() {
    let mut opts = Options::default();
    opts.squeeze = true;
    for end in [0usize, 3] {
        let mut data = vec![7u8; 160];
        data.extend(vec![1u8; 16]);
        data.extend(vec![9u8; 64 + end]);
        let dump = run_serial_mmap(&opts, &data, 0, false, true);
        assert!(dump.len() < 700);
        assert_eq!(bytes(&dump, None), Some(data.clone()));
        let dump = run_streaming(&opts, &vec![data.clone()], false, false);
        assert_eq!(bytes(&dump, None), Some(data));
    }
}

#[test]
fn left_out_rows_further_on_are_read_back() {
    let mut opts = Options::default();
    opts.squeeze = true;
    opts.skip = 0x30;
    opts.jump = 0x1000;
    let mut data = vec![7u8; 160];
    data.extend(vec![9u8; 67]);
    let dump = run_serial_mmap(&opts, &data, 0x1030, false, true);
    assert_eq!(bytes(&dump, None), Some(data.clone()));
    let dump = run_streaming(&opts, &vec![data.clone()], false, false);
    assert_eq!(bytes(&dump, None), Some(data));
    let wrapped = b"fffffffffffffffe: 41 42\n00000000: 43 44\n*\n00000006: 45\n";
    assert_eq!(bytes(wrapped, None), Some(b"ABCDCDCDE".to_vec()));
}

#[test]
fn left_out_rows_after_the_jump_are_read_back() {
    let dump = b"00000000: 41 42\n00000002: 43 44\n*\n00000008: 45 46\n0000000a\n";
    assert_eq!(bytes(dump, Some(2)), Some(b"CDCDCDEF".to_vec()));
}

#[test]
fn plain_digits_are_read_back() {
    let data: Vec<u8> = (0..=255u8).collect();
    assert_eq!(bytes(&run_plain(&data, false), None), Some(data.clone()));
    assert_eq!(bytes(&run_plain(&data, true), None), Some(data));
    assert_eq!(bytes(b"\n", None), Some(vec![]));
}

#[test]
fn other_modes_are_read_back() {
    let data: Vec<u8> = (100..164u8).collect();
    let mut opts = Options::default();
    opts.mode = DisplayMode::TwoByteHex;
    opts.group = 2;
    let dump = run_parallel_mmap(&opts, &data, 0, false, 4);
    assert_eq!(bytes(&dump, None), Some(data));
}

#[test]
fn rows_before_the_jump_are_left_out() {
    let dump = b"00000000: 41 42 |AB|\n00000002: 43 44 |CD|\n00000004\n";
    assert_eq!(bytes(dump, Some(2)), Some(b"CD".to_vec()));
    assert_eq!(bytes(dump, Some(-9)), Some(b"ABCD".to_vec()));
    assert_eq!(bytes(dump, Some(100)), Some(vec![]));
}

#[test]
fn a_star_repeats_the_last_row() {
    assert_eq!(bytes(b"00000000: 41 42\n*\n00000006: 43\n", None), Some(b"ABABABC".to_vec()));
    assert_eq!(bytes(b"00000000: 41 42\n*\n00000006\n", None), Some(b"ABABAB".to_vec()));
    assert_eq!(bytes(b"*\n00000006: 43\n", None), Some(b"C".to_vec()));
    assert_eq!(bytes(b"00000000: 41 42\n*\nxyz: 43\n", None), Some(b"AB".to_vec()));
}

#[test]
fn offsets_that_go_back_after_a_star() {
    assert_eq!(bytes(b"00000000: 41 42\n*\n00000001: 43\n", None), None);
    assert_eq!(bytes(b"00000000: 41 42\n*\n00000001\n", None), None);
}

#[test]
fn lines_that_hold_no_row() {
    assert_eq!(bytes(b"", None), Some(vec![]));
    assert_eq!(bytes(b"\n\nhello\n", None), Some(vec![]));
    assert_eq!(bytes(b"00000000: 4 41\n", None), Some(vec![]));
    assert_eq!(bytes(b"0x10: 41zz42\n", None), Some(b"A".to_vec()));
    assert_eq!(bytes(b"4142 4344\n", None), Some(b"CD".to_vec()));
}

#[test]
fn offsets_in_text() {
    assert_eq!(parse_offset(b"00ff"), Some(255));
    assert_eq!(parse_offset(b"FFFFFFFFFFFFFFFF"), Some(u64::MAX));
    assert_eq!(parse_offset(b"10000000000000000"), None);
    assert_eq!(parse_offset(b""), None);
    assert_eq!(parse_offset(b"12x4"), None);
    assert_eq!(hex_digit(b'7'), 7);
    assert_eq!(hex_digit(b'e'), 14);
    assert_eq!(hex_digit(b'E'), 14);
    assert_eq!(hex_digit(b'g'), 0);
}
