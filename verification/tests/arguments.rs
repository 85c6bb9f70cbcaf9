use fasthex::args::{
    add_formats, all_args, file_message, finish_args, finish_with, parse_args_from,
    parse_char_table, parse_color_when, parse_scheme, ArgResult,
};
use fasthex::dump::select_range;
use fasthex::options::{
    BorderStyle, CharTable, ColorScheme, ColorWhen, DisplayMode, Endian, Options,
};
use fasthex::size::{parse_number, parse_size_signed, parse_size_unsigned};
use fasthex::text::{chars_of, find_char, push_lines, spells, split_words, text_of, trim, white};

fn parse(args: &[&str]) -> ArgResult {
    let raw: Vec<String> = args.iter().map(|s| s.to_string()).collect();
    parse_args_from(&raw, 0, Options::default())
}

fn ready(args: &[&str]) -> Options {
    match parse(args) {
        ArgResult::Ready(o) => o,
        _ => panic!("not ready"),
    }
}

fn invalid(args: &[&str]) -> String {
    match parse(args) {
        ArgResult::Invalid(m) => m,
        _ => panic!("not refused"),
    }
}

fn err(text: &str) -> String {
    parse_size_unsigned(text).unwrap_err()
}

#[test]
fn sizes() {
    assert_eq!(parse_size_unsigned("0"), Ok(0));
    assert_eq!(parse_size_unsigned(" 16 "), Ok(16));
    assert_eq!(parse_size_unsigned("0x1F"), Ok(31));
    assert_eq!(parse_size_unsigned("0Xff"), Ok(255));
    assert_eq!(parse_size_unsigned("1k"), Ok(1024));
    assert_eq!(parse_size_unsigned("2KiB"), Ok(2048));
    assert_eq!(parse_size_unsigned("3M"), Ok(3 << 20));
    assert_eq!(parse_size_unsigned("1mib"), Ok(1 << 20));
    assert_eq!(parse_size_unsigned("1G"), Ok(1 << 30));
    assert_eq!(parse_size_unsigned("1TiB"), Ok(1 << 40));
    assert_eq!(parse_size_unsigned("1p"), Ok(1 << 50));
    assert_eq!(parse_size_unsigned("15E"), Ok(15 << 60));
    assert_eq!(parse_size_unsigned("7kb"), Ok(7_000));
    assert_eq!(parse_size_unsigned("7MB"), Ok(7_000_000));
    assert_eq!(parse_size_unsigned("7GB"), Ok(7_000_000_000));
    assert_eq!(parse_size_unsigned("7TB"), Ok(7_000_000_000_000));
    assert_eq!(parse_size_unsigned("7PB"), Ok(7_000_000_000_000_000));
    assert_eq!(parse_size_unsigned("7EB"), Ok(7_000_000_000_000_000_000));
    assert_eq!(parse_size_unsigned("18446744073709551615"), Ok(u64::MAX));
    assert_eq!(parse_size_unsigned("0ZiB"), Ok(0));
}

#[test]
fn sizes_that_are_refused() {
    assert_eq!(err(""), "empty value");
    assert_eq!(err("   "), "empty value");
    assert_eq!(err("abc"), "invalid number: abc");
    assert_eq!(err("-1"), "invalid number: -1");
    assert_eq!(err("18446744073709551616"), "invalid number: 18446744073709551616");
    assert_eq!(err("0xzz"), "invalid hex value: 0xzz");
    assert_eq!(err("0x"), "invalid hex value: 0x");
    assert_eq!(err("12q"), "unknown suffix: q");
    assert_eq!(err("1 k"), "unknown suffix:  k");
    assert_eq!(err("16E"), "value too large");
    assert_eq!(err("1YiB"), "value too large");
    assert_eq!(err("19EB"), "value too large");
}

#[test]
fn signed_sizes() {
    assert_eq!(parse_size_signed("-1k"), Ok(-1024));
    assert_eq!(parse_size_signed("- 5"), Ok(-5));
    assert_eq!(parse_size_signed("0x10"), Ok(16));
    assert_eq!(parse_size_signed("9223372036854775807"), Ok(i64::MAX));
    assert_eq!(parse_size_signed("9223372036854775808").unwrap_err(), "value too large");
    assert_eq!(parse_size_signed("-9223372036854775808").unwrap_err(), "value too large");
    assert_eq!(parse_size_signed("").unwrap_err(), "empty value");
    assert_eq!(parse_size_signed("-").unwrap_err(), "empty value");
    assert_eq!(parse_size_signed("-x").unwrap_err(), "invalid number: x");
}

#[test]
fn numbers_in_a_base() {
    assert_eq!(parse_number(&['1', '0', 'f'], 16), Some(0x10f));
    assert_eq!(parse_number(&['1', '0', 'f'], 10), None);
    assert_eq!(parse_number(&['7', '8'], 8), None);
    assert_eq!(parse_number(&[], 10), None);
}

#[test]
fn modes_of_the_command_line() {
    for (short, long, mode) in [
        ("-x", "--hex", DisplayMode::OneByteHex),
        ("-X", "--hex-wide", DisplayMode::TwoByteHex),
        ("-o", "--octal", DisplayMode::OneByteOctal),
        ("-O", "--octal-wide", DisplayMode::TwoByteOctal),
        ("-d", "--decimal", DisplayMode::OneByteDecimal),
        ("-D", "--decimal-wide", DisplayMode::TwoByteDecimal),
        ("-c", "--chars", DisplayMode::OneByteChar),
        ("-b", "--binary", DisplayMode::Binary),
        ("-p", "--plain", DisplayMode::Plain),
        ("-i", "--include", DisplayMode::CInclude),
        ("-r", "--reverse", DisplayMode::Reverse),
    ] {
        assert_eq!(ready(&[short]).mode, mode);
        assert_eq!(ready(&[long]).mode, mode);
    }
    assert_eq!(ready(&[]).mode, DisplayMode::Canonical);
}

#[test]
fn flags_of_the_command_line() {
    let o = ready(&["-APuwq", "file"]);
    assert!(o.no_ascii && o.no_position && o.uppercase && o.squeeze && o.quiet);
    assert!(!o.minimal && !o.offset_dec);
    assert_eq!(o.files, vec!["file"]);
    let o = ready(&["--no-ascii", "--no-position", "--uppercase", "--squeeze", "--quiet"]);
    assert!(o.no_ascii && o.no_position && o.uppercase && o.squeeze && o.quiet);
    let o = ready(&["--minimal", "--offset-dec"]);
    assert!(o.minimal && o.offset_dec);
}

#[test]
fn values_of_the_command_line() {
    let o = ready(&["-W", "8", "-g4", "-Elittle", "-B", "unicode", "-s-5", "-n", "1k"]);
    assert_eq!((o.width, o.group, o.skip, o.length), (8, 4, -5, Some(1024)));
    assert_eq!((o.endian, o.border), (Endian::Little, BorderStyle::Unicode));
    let o = ready(&["-j0x10", "-L", "never", "-Stype", "-T", "cp437", "-m3", "-F", "\"%02x\""]);
    assert_eq!((o.jump, o.max_lines), (16, Some(3)));
    assert_eq!(o.color, ColorWhen::Never);
    assert_eq!(o.scheme, ColorScheme::Type);
    assert_eq!(o.table, CharTable::Cp437);
    assert_eq!(o.formats, vec!["\"%02x\""]);
    let o = ready(&[
        "--width=8", "--group", "2", "--endian=big", "--border=ascii", "--skip=7", "--length=9",
        "--jump=-1", "--color=always", "--scheme=gradient", "--table", "ebcdic", "--max-lines=2",
        "--format=\"a=b\"",
    ]);
    assert_eq!((o.width, o.group, o.skip, o.length), (8, 2, 7, Some(9)));
    assert_eq!((o.jump, o.max_lines), (-1, Some(2)));
    assert_eq!((o.endian, o.border), (Endian::Big, BorderStyle::Ascii));
    assert_eq!(o.color, ColorWhen::Always);
    assert_eq!(o.scheme, ColorScheme::Gradient);
    assert_eq!(o.table, CharTable::Ebcdic);
    assert_eq!(o.formats, vec!["\"a=b\""]);
    assert_eq!(ready(&["--color"]).color, ColorWhen::Auto);
    assert_eq!(ready(&["--border=none"]).border, BorderStyle::Off);
}

#[test]
fn skip_and_length_select_bytes() {
    let o = ready(&["-s", "1KiB", "-n", "512", "file"]);
    assert_eq!(select_range(&o, 4096), (1024, 1536));
    assert_eq!(select_range(&o, 1100), (1024, 1100));
    assert_eq!(select_range(&ready(&["-s-1KiB"]), 4096), (3072, 4096));
}

fn shown(args: &[&str]) -> String {
    match parse(args) {
        ArgResult::Ready(o) => format!("{:?}", o),
        ArgResult::Help => String::from("help"),
        ArgResult::Version => String::from("version"),
        ArgResult::ReadFile { name, .. } => format!("file {}", name),
        ArgResult::Invalid(_) => String::from("refused"),
    }
}

#[test]
fn short_and_long_options_do_the_same() {
    for (short, long) in [
        ("-x", "--hex"),
        ("-X", "--hex-wide"),
        ("-o", "--octal"),
        ("-O", "--octal-wide"),
        ("-d", "--decimal"),
        ("-D", "--decimal-wide"),
        ("-c", "--chars"),
        ("-b", "--binary"),
        ("-p", "--plain"),
        ("-i", "--include"),
        ("-r", "--reverse"),
        ("-A", "--no-ascii"),
        ("-P", "--no-position"),
        ("-u", "--uppercase"),
        ("-w", "--squeeze"),
        ("-q", "--quiet"),
        ("-h", "--help"),
        ("-v", "--version"),
    ] {
        assert_eq!(shown(&[short]), shown(&[long]));
        assert_ne!(shown(&[short]), shown(&[]));
        assert_ne!(shown(&[short]), "refused");
    }
    for (short, long, good, bad) in [
        ("-W", "--width", "8", "x"),
        ("-g", "--group", "4", "3"),
        ("-E", "--endian", "little", "up"),
        ("-B", "--border", "ascii", "thick"),
        ("-s", "--skip", "-3", "3q"),
        ("-n", "--length", "1K", "-1"),
        ("-j", "--jump", "0x10", "z"),
        ("-L", "--color", "never", "maybe"),
        ("-S", "--scheme", "type", "none"),
        ("-T", "--table", "cp437", "utf8"),
        ("-m", "--max-lines", "3", "few"),
        ("-F", "--format", "\"%02x\"", ""),
        ("-f", "--format-file", "rules", ""),
    ] {
        for value in [good, bad] {
            if value.is_empty() {
                continue;
            }
            let apart = shown(&[short, value]);
            assert_eq!(shown(&[&format!("{}{}", short, value)]), apart);
            assert_eq!(shown(&[long, value]), apart);
            assert_eq!(shown(&[&format!("{}={}", long, value)]), apart);
            assert_eq!(apart == "refused", value == bad);
            assert_ne!(apart, shown(&[]));
        }
    }
}

#[test]
fn a_bundle_ends_with_a_value() {
    let o = ready(&["-xAW", "4", "-uW5"]);
    assert_eq!(o.mode, DisplayMode::OneByteHex);
    assert!(o.no_ascii && o.uppercase);
    assert_eq!(o.width, 5);
}

#[test]
fn files_of_the_command_line() {
    assert_eq!(ready(&["a", "-", "b"]).files, vec!["a", "-", "b"]);
    assert_eq!(ready(&["-x", "--", "-x", "--help"]).files, vec!["-x", "--help"]);
}

#[test]
fn help_and_version() {
    assert!(matches!(parse(&["--help"]), ArgResult::Help));
    assert!(matches!(parse(&["-xh", "--bad"]), ArgResult::Help));
    assert!(matches!(parse(&["--version"]), ArgResult::Version));
    assert!(matches!(parse(&["-v"]), ArgResult::Version));
}

#[test]
fn command_lines_that_are_refused() {
    assert_eq!(invalid(&["--what"]), "unknown option: --what");
    assert_eq!(invalid(&["--what=5"]), "unknown option: --what");
    assert_eq!(invalid(&["-z"]), "unknown option: -z");
    assert_eq!(invalid(&["-xz"]), "unknown option: -z");
    assert_eq!(invalid(&["-é"]), "unknown option: -Ã");
    assert_eq!(invalid(&["-W"]), "missing argument for -W");
    assert_eq!(invalid(&["--width"]), "empty value");
    assert_eq!(invalid(&["--width=0"]), "--width must be > 0");
    assert_eq!(invalid(&["-W0"]), "-W must be > 0");
    assert_eq!(invalid(&["--group=3"]), "--group must be 1, 2, 4, or 8");
    assert_eq!(invalid(&["-g16"]), "-g must be 1, 2, 4, or 8");
    assert_eq!(invalid(&["--endian=x"]), "unknown endian: x");
    assert_eq!(invalid(&["-Ey"]), "unknown endian: y");
    assert_eq!(invalid(&["--border=x"]), "unknown border style: x");
    assert_eq!(invalid(&["-By"]), "unknown border: y");
    assert_eq!(invalid(&["--color=x"]), "unknown color mode: x");
    assert_eq!(invalid(&["--scheme=x"]), "unknown color scheme: x");
    assert_eq!(invalid(&["-Tx"]), "unknown char table: x");
    assert_eq!(invalid(&["--format=x"]), "--format expects a quoted format string: x");
    assert_eq!(invalid(&["-Fx"]), "-F expects a quoted format string: x");
    assert_eq!(invalid(&["-n", "5x"]), "unknown suffix: x");
    assert_eq!(invalid(&["--skip=99999999999999999999"]), "invalid number: 99999999999999999999");
}

#[test]
fn words_for_values() {
    assert_eq!(parse_color_when("auto").unwrap(), ColorWhen::Auto);
    assert_eq!(parse_color_when("Auto").unwrap_err(), "unknown color mode: Auto");
    assert_eq!(parse_scheme("default").unwrap(), ColorScheme::Default);
    assert_eq!(parse_scheme("").unwrap_err(), "unknown color scheme: ");
    assert_eq!(parse_char_table("ascii").unwrap(), CharTable::Ascii);
    assert_eq!(parse_char_table("default").unwrap(), CharTable::Default);
    assert_eq!(parse_char_table("braille").unwrap(), CharTable::Braille);
    assert_eq!(parse_char_table("utf8").unwrap_err(), "unknown char table: utf8");
}

#[test]
fn files_of_formats() {
    let raw: Vec<String> = ["-u", "-f", "fmt", "-x"].iter().map(|s| s.to_string()).collect();
    match parse_args_from(&raw, 0, Options::default()) {
        ArgResult::ReadFile { name, long, options, next } => {
            assert_eq!((name.as_str(), long, next), ("fmt", false, 3));
            let options = add_formats(options, "  \"a\" \r\n\n\t\n4/1 \"b\"\n");
            match parse_args_from(&raw, next, options) {
                ArgResult::Ready(o) => {
                    assert!(o.uppercase);
                    assert_eq!(o.mode, DisplayMode::OneByteHex);
                    assert_eq!(o.formats, vec!["\"a\"", "4/1 \"b\""]);
                }
                _ => panic!("not ready"),
            }
        }
        _ => panic!("no file"),
    }
    assert!(matches!(
        parse(&["--format-file=x"]),
        ArgResult::ReadFile { long: true, next: 1, .. }
    ));
    assert_eq!(file_message("x", true, "gone"), "cannot read format file x: gone");
    assert_eq!(file_message("x", false, "gone"), "cannot read x: gone");
}

#[test]
fn what_follows_from_the_settings() {
    let o = finish_args(ready(&["-X"]), false);
    assert_eq!(o.group, 2);
    let o = finish_args(ready(&["-X", "-g8"]), false);
    assert_eq!(o.group, 8);
    let o = finish_args(ready(&["-b", "-W20"]), false);
    assert_eq!((o.width, o.group), (8, 1));
    let o = finish_args(ready(&["-r", "-j7"]), false);
    assert_eq!(o.reverse_jump, Some(7));
    let o = finish_args(ready(&[]), true);
    assert_eq!(o.color, ColorWhen::Never);
    assert_eq!(o.reverse_jump, None);
    assert_eq!(o.include_name, None);
    let o = finish_args(ready(&["-Lalways"]), true);
    assert_eq!(o.color, ColorWhen::Always);
}

#[test]
fn names_of_c_variables() {
    assert_eq!(
        finish_args(ready(&["-i", "dir/my-file.tar.gz"]), false).include_name.unwrap(),
        "my_file_tar"
    );
    assert_eq!(finish_args(ready(&["-i", "été 2.bin"]), false).include_name.unwrap(), "été_2");
    for (path, name) in [
        ("..", "data"),
        ("a/..", "data"),
        ("/", "data"),
        ("dir.d/", "dir"),
        ("dir/x.y//", "x"),
        ("x.y/.", "x"),
        ("/x", "x"),
        (".profile", "_profile"),
        ("a.b.", "a_b"),
    ] {
        assert_eq!(finish_args(ready(&["-i", path]), false).include_name.unwrap(), name);
    }
    assert_eq!(finish_args(ready(&["-i"]), false).include_name, None);
    let o = finish_with(ready(&["-i", "x"]), Some(String::from("a.b")), false);
    assert_eq!(o.include_name.unwrap(), "a_b");
    let o = finish_with(ready(&["-i", "x"]), None, false);
    assert_eq!(o.include_name.unwrap(), "data");
}

#[test]
fn default_arguments_come_first() {
    assert_eq!(
        all_args(Some(" -x\t--width 8\n"), vec![String::from("a b")]),
        vec!["-x", "--width", "8", "a b"]
    );
    assert_eq!(all_args(None, vec![String::from("a")]), vec!["a"]);
}

#[test]
fn words_and_lines() {
    assert_eq!(split_words(""), Vec::<String>::new());
    assert_eq!(split_words("a  b\x0cc\u{a0}d"), vec!["a", "b", "c\u{a0}d"]);
    let mut out = Vec::new();
    push_lines(&chars_of("x \r\n\n y\u{2003}"), &mut out);
    assert_eq!(out, vec!["x", "y"]);
    assert_eq!(text_of(trim(&chars_of("\u{a0} é \n"))), "é");
    assert!(white('\u{3000}'));
    assert!(!white('\u{200b}'));
    assert!(spells(&['a', 'b'], "ab"));
    assert!(!spells(&['a', 'b'], "abc"));
    assert_eq!(find_char(&['a', 'b', 'a'], 'a', 1), 2);
    assert_eq!(find_char(&['a', 'b'], 'c', 0), 2);
}
