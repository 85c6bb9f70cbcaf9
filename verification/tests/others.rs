use fasthex::bytes::{push_bytes, push_fill, same_bytes, to_vec};
use fasthex::charset::push_utf8;
use fasthex::custom::{apply_units, limit_lines, parse_formats, run_custom_format, Unit};
use fasthex::help::{help_text, output_format_rows, row, row_val, sections, version_text};
use fasthex::input::{inputs, plan_skip, single_file, skip_step, Skip, Source, Sources};
use fasthex::numeral::{count_digits, digit_byte, push_hex2, push_numeral};
use fasthex::options::Options;
use fasthex::writer::{Action, Chunk, Event};

const PAGE: &str = r#"fasthex 0.3.0 - a very fast hex dumper

Usage:
  fasthex [options] [file]...
  fasthex -r [options] [file] [-j <offset>]
  fasthex [options] -          read from stdin explicitly

Multiple files are concatenated and treated as one stream.
If no file is given, reads from stdin.

OUTPUT FORMAT
  Rule: lowercase = one-byte mode, UPPERCASE = two-byte mode.

      (default)               canonical hex + ASCII display
  -x, --hex                   one-byte hexadecimal display
  -X, --hex-wide              two-byte hexadecimal display
  -o, --octal                 one-byte octal display
  -O, --octal-wide            two-byte octal display
  -d, --decimal               one-byte decimal display
  -D, --decimal-wide          two-byte decimal display
  -c, --chars                 one-byte character display
  -b, --binary                binary display (8 bits per byte)
  -p, --plain                 plain hex string, no offset or ASCII
  -i, --include               C include file style output
  -r, --reverse               convert hex dump back to binary

LAYOUT
  -W, --width <N>             bytes per row (default: 16)
  -g, --group <N>             bytes per group: 1, 2, 4, 8
  -E, --endian <MODE>         big | little  (default: big)
  -B, --border <STYLE>        none | ascii | unicode  (default: none)
  -A, --no-ascii              hide the ASCII panel
  -P, --no-position           hide the offset/position column
      --minimal               compact rows: offset + hex + ascii, no separators

OFFSET & NAVIGATION
  -s, --skip <N>              skip first N bytes (negative = from end)
  -n, --length <N>            read only N bytes
  -j, --jump <N>              bias added to every displayed offset
  -u, --uppercase             uppercase hex digits (A-F)
      --offset-dec            show offsets in decimal

COLOR
  -L, --color <WHEN>          auto | always | never  (default: auto)
  -S, --scheme <NAME>         default | type | gradient
  -T, --table <MODE>          ascii | default | braille | cp437 | ebcdic

FILTERING & FLOW
  -w, --squeeze               replace identical rows with '*'
  -m, --max-lines <N>         stop after N output lines
  -q, --quiet                 suppress warnings

CUSTOM FORMAT
  -F, --format <FMT>          hexdump -e style format string
  -f, --format-file <FILE>    read format strings from file

MISC
  -h, --help                  show this help
  -v, --version               show version

SIZE SUFFIXES: KiB/K/MiB/M/GiB/G/TiB/T/PiB/P/EiB/E  kB/MB/GB/TB/PB/EB  0x…
"#;

fn custom(formats: &[&str], data: &[u8], start: u64) -> String {
    let formats: Vec<String> = formats.iter().map(|s| s.to_string()).collect();
    String::from_utf8(run_custom_format(&formats, data, start)).unwrap()
}

#[test]
fn custom_rows() {
    let format = ["\"%08_ax  \" 4/1 \"%02x \" \"\\n\""];
    assert_eq!(custom(&format, b"ABCD", 0x10), "00000010  41 42 43 44 \n");
    assert_eq!(
        custom(&format, b"ABCDE", 0x10),
        "00000010  41 42 43 44 \n00000014  45 00 00 00 \n"
    );
    assert_eq!(custom(&["4/1 \"%02x\""], b"ABCD", 0), "41424344");
    assert_eq!(custom(&["\"<\" 2/1 \"[%02x]\" \">\""], b"ABCD", 0), "<[41][42]><[43][44]>");
}

#[test]
fn custom_fields() {
    assert_eq!(custom(&["\"%03o\""], &[8, 255], 0), "010377");
    assert_eq!(custom(&["1/2 \"%05d\""], &[1, 2, 3], 0), "0025800003");
    assert_eq!(custom(&["4/1 \"%_c\""], b"A\nB~", 0), "A.B~");
    assert_eq!(custom(&["1/1 \"_Ad|\""], b"AB", 98), "00000098|00000099|");
    assert_eq!(custom(&["1/1 \"%08_Ax:\""], b"A", 255), "000000ff:");
    assert_eq!(custom(&["\"a\\tb\\\\\" 1/1 \"%q\""], b"A", 0), "a\tb\\%q");
}

#[test]
fn custom_rows_without_units() {
    assert_eq!(custom(&["nothing quoted"], b"AB", 0), "");
    assert_eq!(custom(&["\"-\""], b"ABC", 0), "---");
    assert_eq!(custom(&["\"é\""], b"A", 0), "Ã©");
    assert_eq!(custom(&["2 \"%02x\"", "\"|\""], b"ABC", 0), "4142|4300|");
}

#[test]
fn units_of_a_format() {
    let units = parse_formats(&vec![String::from(" 16/2 \"%02x\" x \"\u{e9}\" 3 \"lit\"")]);
    let shown: Vec<(usize, usize, Vec<u8>)> =
        units.into_iter().map(|u| (u.count, u.size, u.fmt)).collect();
    assert_eq!(
        shown,
        vec![
            (16, 2, b"%02x".to_vec()),
            (1, 0, vec![0xc3, 0xa9]),
            (3, 1, b"lit".to_vec()),
        ]
    );
}

#[test]
fn units_longer_than_the_data() {
    let unit = Unit { count: 2, size: usize::MAX, fmt: b"x".to_vec() };
    assert_eq!(apply_units(&vec![unit], b"A", 0), b"xx");
}

#[test]
fn lines_of_a_text() {
    let lines = b"a\nb\nc".to_vec();
    assert_eq!(limit_lines(None, lines.clone()), lines);
    assert_eq!(limit_lines(Some(0), lines.clone()), b"");
    assert_eq!(limit_lines(Some(2), lines.clone()), b"a\nb\n");
    assert_eq!(limit_lines(Some(3), lines.clone()), lines);
}

#[test]
fn help_page() {
    let page = help_text(false);
    assert_eq!(page, PAGE);
    assert!(page.contains("fasthex [options] -          read from stdin explicitly"));
    assert!(page.contains("Multiple files are concatenated and treated as one stream."));
    assert!(page.contains("SIZE SUFFIXES: KiB/K/MiB/M/GiB/G/TiB/T/PiB/P/EiB/E"));
    assert!(!page.contains('\x1b'));
    assert!(help_text(true).contains('\x1b'));
    let mut at = 0;
    for s in sections() {
        at += page[at..].find(s.title).unwrap();
        for r in &s.rows {
            at += page[at..].find(r.long).unwrap();
            at += page[at..].find(r.desc).unwrap();
        }
    }
}

#[test]
fn version_of_the_tool() {
    assert_eq!(version_text(), "fasthex 0.3.0");
    assert!(PAGE.starts_with(&version_text()));
}

#[test]
fn help_rows() {
    let rows = output_format_rows();
    assert_eq!(rows.len(), 12);
    assert_eq!((rows[1].short, rows[1].long), ("-x", "--hex"));
    assert_eq!(sections().len(), 7);
    let r = row_val("-W", "--width", "<N>", "bytes per row (default: 16)");
    assert_eq!((r.short, r.long, r.placeholder), ("-W", "--width", Some("<N>")));
    assert_eq!(r.desc, "bytes per row (default: 16)");
    assert_eq!(row("-h", "--help", "show this help").placeholder, None);
}

#[test]
fn inputs_of_a_dump() {
    let mut opts = Options::default();
    assert_eq!(inputs(&opts), vec!["-"]);
    assert!(!single_file(&opts));
    opts.files = vec![String::from("-")];
    assert!(!single_file(&opts));
    opts.files = vec![String::from("a")];
    assert!(single_file(&opts));
    opts.files = vec![String::from("a"), String::from("-")];
    assert!(!single_file(&opts));
    assert_eq!(inputs(&opts), vec!["a", "-"]);
    let mut s = Sources::new(inputs(&opts));
    assert!(matches!(s.advance(), Some(Source::File(f)) if f == "a"));
    assert!(matches!(s.advance(), Some(Source::Stdin)));
    assert!(s.advance().is_none());
    assert!(s.advance().is_none());
}

#[test]
fn bytes_left_out_of_a_stream() {
    assert_eq!(plan_skip(0, true), Skip::Nothing);
    assert_eq!(plan_skip(-4, false), Skip::FromEnd);
    assert_eq!(plan_skip(i64::MIN, true), Skip::FromEnd);
    assert_eq!(plan_skip(4, true), Skip::Seek(4));
    assert_eq!(plan_skip(4, false), Skip::Read(4));
    assert_eq!(skip_step(10, 4), 4);
    assert_eq!(skip_step(3, 4), 3);
}

#[test]
fn writing_through_a_pipe() {
    let (mut c, a) = Chunk::start(10, false);
    assert_eq!(a, Action::Pipe(0));
    assert_eq!(c.next(Event::Piped(6)), Action::Move(6));
    assert_eq!(c.next(Event::Moved(4)), Action::Move(2));
    assert_eq!(c.next(Event::Moved(2)), Action::Pipe(6));
    assert_eq!(c.next(Event::Piped(4)), Action::Move(4));
    assert_eq!(c.next(Event::Moved(4)), Action::Done);
}

#[test]
fn writing_where_the_pipe_is_refused() {
    let (mut c, _) = Chunk::start(10, false);
    c.next(Event::Piped(6));
    assert_eq!(c.next(Event::MoveRefused), Action::Drain);
    assert!(c.fallback);
    assert_eq!(c.next(Event::Drained), Action::Write(6));
    let (_, a) = Chunk::start(10, true);
    assert_eq!(a, Action::Write(0));
    let (mut c, _) = Chunk::start(10, false);
    assert_eq!(c.next(Event::PipeRefused), Action::Drain);
    assert_eq!(c.next(Event::Drained), Action::Write(0));
}

#[test]
fn every_byte_leaves_a_chunk_once() {
    // The sizes in which the pipe takes bytes and gives them on; a refusal ends the list.
    for (piped, moved) in [(3usize, 2usize), (10, 10), (1, 1), (7, 3)] {
        for refuse_at in 0..12usize {
            let (mut c, mut a) = Chunk::start(10, false);
            let mut waiting = 0;
            let mut out = 0;
            let mut steps = 0;
            loop {
                steps += 1;
                let event = match a {
                    Action::Pipe(from) => {
                        assert_eq!(from, out + waiting);
                        if steps > refuse_at {
                            Event::PipeRefused
                        } else {
                            waiting += piped.min(10 - from);
                            Event::Piped(waiting)
                        }
                    }
                    Action::Move(n) => {
                        assert_eq!(n, waiting);
                        if steps > refuse_at {
                            Event::MoveRefused
                        } else {
                            let k = moved.min(n);
                            waiting -= k;
                            out += k;
                            Event::Moved(k)
                        }
                    }
                    Action::Drain => {
                        out += waiting;
                        waiting = 0;
                        Event::Drained
                    }
                    Action::Write(from) => {
                        assert_eq!(from, out);
                        out = 10;
                        break;
                    }
                    _ => break,
                };
                a = c.next(event);
            }
            assert_eq!((out, waiting), (10, 0));
        }
    }
}

#[test]
fn writing_that_fails() {
    let (_, a) = Chunk::start(0, false);
    assert_eq!(a, Action::Done);
    let (mut c, _) = Chunk::start(3, false);
    assert_eq!(c.next(Event::PipeFailed), Action::Failed);
    assert_eq!(c.next(Event::Piped(0)), Action::NothingPiped);
    c.next(Event::Piped(3));
    assert_eq!(c.next(Event::MoveFailed), Action::Failed);
    assert_eq!(c.next(Event::Moved(0)), Action::NothingMoved);
}

#[test]
fn numerals() {
    let mut out = Vec::new();
    push_numeral(&mut out, 10, 2, 6, false);
    push_numeral(&mut out, 0xbeef, 16, 2, true);
    push_numeral(&mut out, 511, 8, 3, false);
    push_hex2(&mut out, 0xa5, false);
    assert_eq!(out, b"001010EF777a5");
    assert_eq!(count_digits(0, 10), 1);
    assert_eq!(count_digits(u64::MAX, 10), 20);
    assert_eq!(count_digits(255, 16), 2);
    assert_eq!(digit_byte(11, true), b'B');
    assert_eq!(digit_byte(9, false), b'9');
}

#[test]
fn byte_sequences() {
    let mut out = to_vec(b"ab");
    push_bytes(&mut out, b"cd");
    push_fill(&mut out, 2, b'!');
    push_utf8(&mut out, 'é');
    push_utf8(&mut out, '│');
    push_utf8(&mut out, '😀');
    assert_eq!(String::from_utf8(out.clone()).unwrap(), "abcd!!é│😀");
    assert!(same_bytes(b"ab", b"ab"));
    assert!(!same_bytes(b"ab", b"abc"));
    assert!(!same_bytes(b"ab", b"ac"));
}
