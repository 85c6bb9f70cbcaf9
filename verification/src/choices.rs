//! The options of the command line as their users know them: which setting each one makes, and that
//! it makes no other.

use crate::amounts::lemma_no_size;
use crate::args::{
    alphanumeric, arg_step, border_style, byte_order, char_table, color_scheme, color_when,
    finished, first_byte, lemma_long_meanings, lemma_name_end, long_meaning, long_step, named,
    parsed, setting_of, short_meaning, short_step, valued_step, with_flag, with_setting, ArgStep,
    Flag, Meaning, Parsed, Valued,
};
use crate::options::{BorderStyle, CharTable, ColorScheme, ColorWhen, DisplayMode, Endian, Settings};
use crate::size::{signed_size_value, size_value};
use vstd::prelude::*;

verus! {

// ---------------------------------------------------------------- options without a value

/// The settings that a letter makes, where it is that of an option without a value.
pub open spec fn flagged(s: Settings, c: char) -> Option<Settings> {
    if c == 'x' {
        Some(Settings { mode: DisplayMode::OneByteHex, ..s })
    } else if c == 'X' {
        Some(Settings { mode: DisplayMode::TwoByteHex, ..s })
    } else if c == 'o' {
        Some(Settings { mode: DisplayMode::OneByteOctal, ..s })
    } else if c == 'O' {
        Some(Settings { mode: DisplayMode::TwoByteOctal, ..s })
    } else if c == 'd' {
        Some(Settings { mode: DisplayMode::OneByteDecimal, ..s })
    } else if c == 'D' {
        Some(Settings { mode: DisplayMode::TwoByteDecimal, ..s })
    } else if c == 'c' {
        Some(Settings { mode: DisplayMode::OneByteChar, ..s })
    } else if c == 'b' {
        Some(Settings { mode: DisplayMode::Binary, ..s })
    } else if c == 'p' {
        Some(Settings { mode: DisplayMode::Plain, ..s })
    } else if c == 'i' {
        Some(Settings { mode: DisplayMode::CInclude, ..s })
    } else if c == 'r' {
        Some(Settings { mode: DisplayMode::Reverse, ..s })
    } else if c == 'A' {
        Some(Settings { no_ascii: true, ..s })
    } else if c == 'P' {
        Some(Settings { no_position: true, ..s })
    } else if c == 'u' {
        Some(Settings { uppercase: true, ..s })
    } else if c == 'w' {
        Some(Settings { squeeze: true, ..s })
    } else if c == 'q' {
        Some(Settings { quiet: true, ..s })
    } else {
        None
    }
}

proof fn lemma_letter(s: Settings, c: char)
    ensures
        flagged(s, c) matches Some(t) ==> short_meaning(c) matches Meaning::Flag(f) && with_flag(
            s,
            f,
        ) == t,
        flagged(s, c) is None ==> !(short_meaning(c) is Flag),
{
    reveal(short_meaning);
    reveal(with_flag);
}

/// A minus sign and a character are no lone pair of minus signs.
proof fn lemma_not_dashes(c: char, rest: Seq<char>)
    requires
        c != '-',
    ensures
        seq!['-', c] + rest != "--"@,
        seq!['-', c] != "--"@,
{
    reveal_strlit("--");
    let a = seq!['-', c] + rest;
    assert(a[1] == c);
    assert(seq!['-', c][1] == c);
    assert("--"@[1] == '-');
}

/// An option without a value makes its setting and no other, and the arguments behind it follow.
pub proof fn lemma_flag_read(raw: Seq<Seq<char>>, i: int, s: Settings, c: char)
    requires
        0 <= i < raw.len(),
        raw[i] == seq!['-', c],
        flagged(s, c) is Some,
    ensures
        parsed(raw, i, s) == parsed(raw, i + 1, flagged(s, c).unwrap()),
{
    lemma_letter(s, c);
    lemma_not_dashes(c, seq![]);
    reveal_with_fuel(short_step, 2);
}

/// The letters of an argument are read from place `j` on as they are one place further in an
/// argument with one more letter before them.
proof fn lemma_letters_shift(
    a: Seq<char>,
    b: Seq<char>,
    more: Seq<Seq<char>>,
    s: Settings,
    j: int,
)
    requires
        1 <= j,
        a.len() == b.len() + 1,
        forall|k: int| 1 <= k < b.len() ==> b[k] == #[trigger] a[k + 1],
    ensures
        short_step(seq![a] + more, 0, s, j + 1) == short_step(seq![b] + more, 0, s, j),
    decreases b.len() - j,
{
    let x = seq![a] + more;
    let y = seq![b] + more;
    assert(x[0] == a && y[0] == b);
    if j < b.len() {
        assert(b[j] == a[j + 1]);
        match short_meaning(b[j]) {
            Meaning::Flag(f) => {
                lemma_letters_shift(a, b, more, with_flag(s, f), j + 1);
            },
            Meaning::Valued(w) => {
                assert(a.skip(j + 2) =~= b.skip(j + 1)) by {
                    assert forall|k: int| 0 <= k < b.len() - j - 1 implies #[trigger] b.skip(
                        j + 1,
                    )[k] == a.skip(j + 2)[k] by {
                        assert(b[k + j + 1] == a[k + j + 1 + 1]);
                    }
                }
                if more.len() > 0 {
                    assert(x[1] == more[0] && y[1] == more[0]);
                }
            },
            _ => {},
        }
    }
}

/// Options without a value can stand together behind one minus sign: the first makes its setting,
/// and the rest is read as if it stood alone.
pub proof fn lemma_flags_together(c: char, rest: Seq<char>, more: Seq<Seq<char>>, s: Settings)
    requires
        flagged(s, c) is Some,
        rest.len() > 0,
        rest[0] != '-',
    ensures
        arg_step(seq![seq!['-', c] + rest] + more, 0, s) == arg_step(
            seq![seq!['-'] + rest] + more,
            0,
            flagged(s, c).unwrap(),
        ),
{
    let a = seq!['-', c] + rest;
    let b = seq!['-'] + rest;
    let t = flagged(s, c).unwrap();
    lemma_letter(s, c);
    lemma_not_dashes(c, rest);
    assert(b =~= seq!['-', rest[0]] + rest.skip(1));
    lemma_not_dashes(rest[0], rest.skip(1));
    let x = seq![a] + more;
    let y = seq![b] + more;
    assert(x[0] == a && y[0] == b);
    assert(a[0] == '-' && a[1] == c && b[0] == '-' && b[1] == rest[0]);
    assert forall|k: int| 1 <= k < b.len() implies b[k] == #[trigger] a[k + 1] by {}
    lemma_letters_shift(a, b, more, t, 1);
    assert(short_step(x, 0, s, 1) == short_step(x, 0, t, 2));
}

/// Two settings have long options alone.
#[verifier::rlimit(50)]
pub proof fn lemma_long_flag(raw: Seq<Seq<char>>, i: int, s: Settings)
    requires
        0 <= i < raw.len(),
    ensures
        raw[i] == "--minimal"@ ==> parsed(raw, i, s) == parsed(
            raw,
            i + 1,
            Settings { minimal: true, ..s },
        ),
        raw[i] == "--offset-dec"@ ==> parsed(raw, i, s) == parsed(
            raw,
            i + 1,
            Settings { offset_dec: true, ..s },
        ),
{
    reveal_strlit("--minimal");
    reveal_strlit("--offset-dec");
    reveal_strlit("minimal");
    reveal_strlit("offset-dec");
    reveal_strlit("--");
    reveal(with_flag);
    reveal(long_step);
    let body = raw[i].skip(2);
    let none = Seq::<char>::empty();
    lemma_long_meanings();
    if raw[i] == "--minimal"@ {
        assert(body =~= "minimal"@);
        lemma_name_end(body, none, 0);
        assert(body + none =~= body);
        assert(body.take(body.len() as int) =~= body);
    }
    if raw[i] == "--offset-dec"@ {
        assert(body =~= "offset-dec"@);
        lemma_name_end(body, none, 0);
        assert(body + none =~= body);
        assert(body.take(body.len() as int) =~= body);
    }
}

/// Help and version come before everything behind them.
pub proof fn lemma_help_read(raw: Seq<Seq<char>>, i: int, s: Settings)
    requires
        0 <= i < raw.len(),
    ensures
        raw[i] == seq!['-', 'h'] ==> parsed(raw, i, s) == Parsed::Help,
        raw[i] == seq!['-', 'v'] ==> parsed(raw, i, s) == Parsed::Version,
{
    reveal(short_meaning);
    lemma_not_dashes('h', seq![]);
    lemma_not_dashes('v', seq![]);
}

// ---------------------------------------------------------------- files

/// What does not start with a minus sign is a file, and so is a minus sign alone. Behind a pair of
/// minus signs everything is a file.
pub proof fn lemma_files_read(raw: Seq<Seq<char>>, i: int, s: Settings)
    requires
        0 <= i < raw.len(),
    ensures
        raw[i].len() == 0 || raw[i][0] != '-' || raw[i] == seq!['-'] ==> parsed(raw, i, s)
            == parsed(raw, i + 1, Settings { files: s.files.push(raw[i]), ..s }),
        raw[i] == seq!['-', '-'] ==> parsed(raw, i, s) == Parsed::Ready(
            Settings { files: s.files + raw.skip(i + 1), ..s },
        ),
{
    reveal_strlit("--");
    assert("--"@ =~= seq!['-', '-']);
    assert("--"@[0] == '-');
}

/// Where no arguments are left, the settings are as they stand.
pub proof fn lemma_all_read(raw: Seq<Seq<char>>, s: Settings)
    ensures
        parsed(raw, raw.len() as int, s) == Parsed::Ready(s),
{
}

// ---------------------------------------------------------------- options with a value

/// What an option with a value leads to, given the setting it makes.
pub open spec fn chosen(raw: Seq<Seq<char>>, next: int, r: Result<Settings, Seq<char>>) -> Parsed {
    match r {
        Ok(t) => parsed(raw, next, t),
        Err(e) => Parsed::Invalid(e),
    }
}

proof fn lemma_value_read(raw: Seq<Seq<char>>, i: int, s: Settings, c: char, w: Valued)
    requires
        0 <= i,
        i + 1 < raw.len(),
        raw[i] == seq!['-', c],
        c != '-',
        short_meaning(c) == Meaning::Valued(w),
    ensures
        parsed(raw, i, s) == match valued_step(s, w, false, raw[i + 1], i + 2) {
            ArgStep::Stop(p) => p,
            ArgStep::Next(t, next) => parsed(raw, i + 2, t),
        },
{
    lemma_not_dashes(c, seq![]);
    reveal(valued_step);
}

/// The number of bytes to leave out, with a sign.
pub proof fn lemma_skip_read(raw: Seq<Seq<char>>, i: int, s: Settings)
    requires
        0 <= i,
        i + 1 < raw.len(),
        raw[i] == seq!['-', 's'],
    ensures
        parsed(raw, i, s) == chosen(
            raw,
            i + 2,
            match signed_size_value(raw[i + 1]) {
                Err(e) => Err(e),
                Ok(n) => Ok(Settings { skip: n, ..s }),
            },
        ),
{
    reveal(short_meaning);
    reveal(valued_step);
    reveal(setting_of);
    reveal(with_setting);
    lemma_value_read(raw, i, s, 's', Valued::Skip);
}

/// The number of bytes to show.
pub proof fn lemma_length_read(raw: Seq<Seq<char>>, i: int, s: Settings)
    requires
        0 <= i,
        i + 1 < raw.len(),
        raw[i] == seq!['-', 'n'],
    ensures
        parsed(raw, i, s) == chosen(
            raw,
            i + 2,
            match size_value(raw[i + 1]) {
                Err(e) => Err(e),
                Ok(n) => Ok(Settings { length: Some(n), ..s }),
            },
        ),
{
    reveal(short_meaning);
    reveal(valued_step);
    reveal(setting_of);
    reveal(with_setting);
    lemma_value_read(raw, i, s, 'n', Valued::Length);
}

/// The offset to add, with a sign.
pub proof fn lemma_jump_read(raw: Seq<Seq<char>>, i: int, s: Settings)
    requires
        0 <= i,
        i + 1 < raw.len(),
        raw[i] == seq!['-', 'j'],
    ensures
        parsed(raw, i, s) == chosen(
            raw,
            i + 2,
            match signed_size_value(raw[i + 1]) {
                Err(e) => Err(e),
                Ok(n) => Ok(Settings { jump: n, ..s }),
            },
        ),
{
    reveal(short_meaning);
    reveal(valued_step);
    reveal(setting_of);
    reveal(with_setting);
    lemma_value_read(raw, i, s, 'j', Valued::Jump);
}

/// The number of lines to write.
pub proof fn lemma_max_lines_read(raw: Seq<Seq<char>>, i: int, s: Settings)
    requires
        0 <= i,
        i + 1 < raw.len(),
        raw[i] == seq!['-', 'm'],
    ensures
        parsed(raw, i, s) == chosen(
            raw,
            i + 2,
            match size_value(raw[i + 1]) {
                Err(e) => Err(e),
                Ok(n) => Ok(Settings { max_lines: Some(n), ..s }),
            },
        ),
{
    reveal(short_meaning);
    reveal(valued_step);
    reveal(setting_of);
    reveal(with_setting);
    lemma_value_read(raw, i, s, 'm', Valued::MaxLines);
}

/// The number of bytes in a row is any but zero.
pub proof fn lemma_width_read(raw: Seq<Seq<char>>, i: int, s: Settings)
    requires
        0 <= i,
        i + 1 < raw.len(),
        raw[i] == seq!['-', 'W'],
        size_value(raw[i + 1]) matches Ok(n) ==> n <= usize::MAX,
    ensures
        parsed(raw, i, s) == chosen(
            raw,
            i + 2,
            match size_value(raw[i + 1]) {
                Err(e) => Err(e),
                Ok(n) => if n == 0 {
                    Err("-W must be > 0"@)
                } else {
                    Ok(Settings { width: n as usize, ..s })
                },
            },
        ),
{
    reveal(short_meaning);
    reveal(valued_step);
    reveal(setting_of);
    reveal(with_setting);
    lemma_value_read(raw, i, s, 'W', Valued::Width);
}

/// The number of bytes in a group is one of four.
pub proof fn lemma_group_read(raw: Seq<Seq<char>>, i: int, s: Settings)
    requires
        0 <= i,
        i + 1 < raw.len(),
        raw[i] == seq!['-', 'g'],
        size_value(raw[i + 1]) matches Ok(n) ==> n <= usize::MAX,
    ensures
        parsed(raw, i, s) == chosen(
            raw,
            i + 2,
            match size_value(raw[i + 1]) {
                Err(e) => Err(e),
                Ok(n) => if n == 1 || n == 2 || n == 4 || n == 8 {
                    Ok(Settings { group: n as usize, ..s })
                } else {
                    Err("-g must be 1, 2, 4, or 8"@)
                },
            },
        ),
{
    reveal(short_meaning);
    reveal(valued_step);
    reveal(setting_of);
    reveal(with_setting);
    lemma_value_read(raw, i, s, 'g', Valued::Group);
}

/// The order of bytes in a group.
pub proof fn lemma_endian_read(raw: Seq<Seq<char>>, i: int, s: Settings)
    requires
        0 <= i,
        i + 1 < raw.len(),
        raw[i] == seq!['-', 'E'],
    ensures
        raw[i + 1] == "big"@ ==> parsed(raw, i, s) == parsed(
            raw,
            i + 2,
            Settings { endian: Endian::Big, ..s },
        ),
        raw[i + 1] == "little"@ ==> parsed(raw, i, s) == parsed(
            raw,
            i + 2,
            Settings { endian: Endian::Little, ..s },
        ),
        raw[i + 1] != "big"@ && raw[i + 1] != "little"@ ==> parsed(raw, i, s) == Parsed::Invalid(
            "unknown endian: "@ + raw[i + 1],
        ),
{
    reveal(short_meaning);
    reveal(valued_step);
    reveal(setting_of);
    reveal(with_setting);
    reveal(byte_order);
    reveal_strlit("big");
    reveal_strlit("little");
    assert("big"@.len() == 3 && "big"@[0] == 'b');
    assert("little"@.len() == 6 && "little"@[0] == 'l');
    lemma_value_read(raw, i, s, 'E', Valued::Endian);
}

/// The border around a dump.
pub proof fn lemma_border_read(raw: Seq<Seq<char>>, i: int, s: Settings)
    requires
        0 <= i,
        i + 1 < raw.len(),
        raw[i] == seq!['-', 'B'],
    ensures
        raw[i + 1] == "none"@ ==> parsed(raw, i, s) == parsed(
            raw,
            i + 2,
            Settings { border: BorderStyle::Off, ..s },
        ),
        raw[i + 1] == "ascii"@ ==> parsed(raw, i, s) == parsed(
            raw,
            i + 2,
            Settings { border: BorderStyle::Ascii, ..s },
        ),
        raw[i + 1] == "unicode"@ ==> parsed(raw, i, s) == parsed(
            raw,
            i + 2,
            Settings { border: BorderStyle::Unicode, ..s },
        ),
        raw[i + 1] != "none"@ && raw[i + 1] != "ascii"@ && raw[i + 1] != "unicode"@
            ==> parsed(raw, i, s) == Parsed::Invalid(
            "unknown border: "@ + raw[i + 1],
        ),
{
    reveal(short_meaning);
    reveal(valued_step);
    reveal(setting_of);
    reveal(with_setting);
    reveal(border_style);
    reveal_strlit("none");
    reveal_strlit("ascii");
    reveal_strlit("unicode");
    assert("none"@.len() == 4 && "none"@[0] == 'n');
    assert("ascii"@.len() == 5 && "ascii"@[0] == 'a');
    assert("unicode"@.len() == 7 && "unicode"@[0] == 'u');
    lemma_value_read(raw, i, s, 'B', Valued::Border);
}

/// When colors are used.
pub proof fn lemma_color_read(raw: Seq<Seq<char>>, i: int, s: Settings)
    requires
        0 <= i,
        i + 1 < raw.len(),
        raw[i] == seq!['-', 'L'],
    ensures
        raw[i + 1] == "auto"@ ==> parsed(raw, i, s) == parsed(
            raw,
            i + 2,
            Settings { color: ColorWhen::Auto, ..s },
        ),
        raw[i + 1] == "always"@ ==> parsed(raw, i, s) == parsed(
            raw,
            i + 2,
            Settings { color: ColorWhen::Always, ..s },
        ),
        raw[i + 1] == "never"@ ==> parsed(raw, i, s) == parsed(
            raw,
            i + 2,
            Settings { color: ColorWhen::Never, ..s },
        ),
        raw[i + 1] != "auto"@ && raw[i + 1] != "always"@ && raw[i + 1] != "never"@
            ==> parsed(raw, i, s) == Parsed::Invalid(
            "unknown color mode: "@ + raw[i + 1],
        ),
{
    reveal(short_meaning);
    reveal(valued_step);
    reveal(setting_of);
    reveal(with_setting);
    reveal(color_when);
    reveal_strlit("auto");
    reveal_strlit("always");
    reveal_strlit("never");
    assert("auto"@.len() == 4 && "auto"@[0] == 'a');
    assert("always"@.len() == 6 && "always"@[0] == 'a');
    assert("never"@.len() == 5 && "never"@[0] == 'n');
    lemma_value_read(raw, i, s, 'L', Valued::Color);
}

/// By what bytes are colored.
pub proof fn lemma_scheme_read(raw: Seq<Seq<char>>, i: int, s: Settings)
    requires
        0 <= i,
        i + 1 < raw.len(),
        raw[i] == seq!['-', 'S'],
    ensures
        raw[i + 1] == "default"@ ==> parsed(raw, i, s) == parsed(
            raw,
            i + 2,
            Settings { scheme: ColorScheme::Default, ..s },
        ),
        raw[i + 1] == "type"@ ==> parsed(raw, i, s) == parsed(
            raw,
            i + 2,
            Settings { scheme: ColorScheme::Type, ..s },
        ),
        raw[i + 1] == "gradient"@ ==> parsed(raw, i, s) == parsed(
            raw,
            i + 2,
            Settings { scheme: ColorScheme::Gradient, ..s },
        ),
        raw[i + 1] != "default"@ && raw[i + 1] != "type"@ && raw[i + 1] != "gradient"@
            ==> parsed(raw, i, s) == Parsed::Invalid(
            "unknown color scheme: "@ + raw[i + 1],
        ),
{
    reveal(short_meaning);
    reveal(valued_step);
    reveal(setting_of);
    reveal(with_setting);
    reveal(color_scheme);
    reveal_strlit("default");
    reveal_strlit("type");
    reveal_strlit("gradient");
    assert("default"@.len() == 7 && "default"@[0] == 'd');
    assert("type"@.len() == 4 && "type"@[0] == 't');
    assert("gradient"@.len() == 8 && "gradient"@[0] == 'g');
    lemma_value_read(raw, i, s, 'S', Valued::Scheme);
}

/// What stands for bytes in the panel.
pub proof fn lemma_table_read(raw: Seq<Seq<char>>, i: int, s: Settings)
    requires
        0 <= i,
        i + 1 < raw.len(),
        raw[i] == seq!['-', 'T'],
    ensures
        raw[i + 1] == "ascii"@ ==> parsed(raw, i, s) == parsed(
            raw,
            i + 2,
            Settings { table: CharTable::Ascii, ..s },
        ),
        raw[i + 1] == "default"@ ==> parsed(raw, i, s) == parsed(
            raw,
            i + 2,
            Settings { table: CharTable::Default, ..s },
        ),
        raw[i + 1] == "braille"@ ==> parsed(raw, i, s) == parsed(
            raw,
            i + 2,
            Settings { table: CharTable::Braille, ..s },
        ),
        raw[i + 1] == "cp437"@ ==> parsed(raw, i, s) == parsed(
            raw,
            i + 2,
            Settings { table: CharTable::Cp437, ..s },
        ),
        raw[i + 1] == "ebcdic"@ ==> parsed(raw, i, s) == parsed(
            raw,
            i + 2,
            Settings { table: CharTable::Ebcdic, ..s },
        ),
        raw[i + 1] != "ascii"@ && raw[i + 1] != "default"@ && raw[i + 1] != "braille"@
            && raw[i + 1] != "cp437"@ && raw[i + 1] != "ebcdic"@
            ==> parsed(raw, i, s) == Parsed::Invalid(
            "unknown char table: "@ + raw[i + 1],
        ),
{
    reveal(short_meaning);
    reveal(valued_step);
    reveal(setting_of);
    reveal(with_setting);
    reveal(char_table);
    reveal_strlit("ascii");
    reveal_strlit("default");
    reveal_strlit("braille");
    reveal_strlit("cp437");
    reveal_strlit("ebcdic");
    assert("ascii"@.len() == 5 && "ascii"@[0] == 'a');
    assert("default"@.len() == 7 && "default"@[0] == 'd');
    assert("braille"@.len() == 7 && "braille"@[0] == 'b');
    assert("cp437"@.len() == 5 && "cp437"@[0] == 'c');
    assert("ebcdic"@.len() == 6 && "ebcdic"@[0] == 'e');
    lemma_value_read(raw, i, s, 'T', Valued::Table);
}

/// Formats come one after the other. Each holds a quote.
pub proof fn lemma_format_read(raw: Seq<Seq<char>>, i: int, s: Settings)
    requires
        0 <= i,
        i + 1 < raw.len(),
        raw[i] == seq!['-', 'F'],
    ensures
        raw[i + 1].contains('"') ==> parsed(raw, i, s) == parsed(
            raw,
            i + 2,
            Settings { formats: s.formats.push(raw[i + 1]), ..s },
        ),
        !raw[i + 1].contains('"') ==> parsed(raw, i, s) == Parsed::Invalid(
            "-F expects a quoted format string: "@ + raw[i + 1],
        ),
{
    reveal(short_meaning);
    reveal(valued_step);
    reveal(setting_of);
    reveal(with_setting);
    lemma_value_read(raw, i, s, 'F', Valued::Format);
}

/// A file of formats is to be read before the arguments behind it.
pub proof fn lemma_format_file_read(raw: Seq<Seq<char>>, i: int, s: Settings)
    requires
        0 <= i,
        i + 1 < raw.len(),
        raw[i] == seq!['-', 'f'],
    ensures
        parsed(raw, i, s) == (Parsed::ReadFile {
            name: raw[i + 1],
            long: false,
            settings: s,
            next: i + 2,
        }),
{
    reveal(short_meaning);
    reveal(valued_step);
    reveal(setting_of);
    reveal(with_setting);
    lemma_value_read(raw, i, s, 'f', Valued::FormatFile);
}

/// Is `c` the letter of an option with a value?
pub open spec fn takes_value(c: char) -> bool {
    c == 'W' || c == 'g' || c == 'E' || c == 'B' || c == 's' || c == 'n' || c == 'j' || c == 'L'
        || c == 'S' || c == 'T' || c == 'm' || c == 'F' || c == 'f'
}

/// A value that is missing is asked for, and a letter that is no option is named by its first byte.
pub proof fn lemma_value_missing(raw: Seq<Seq<char>>, s: Settings, c: char)
    requires
        raw.len() > 0,
        raw.last() == seq!['-', c],
        c != '-',
    ensures
        takes_value(c) ==> parsed(raw, raw.len() - 1, s) == Parsed::Invalid(
            "missing argument for -"@ + seq![c],
        ),
        !takes_value(c) && flagged(s, c) is None && c != 'h' && c != 'v' ==> parsed(
            raw,
            raw.len() - 1,
            s,
        ) == Parsed::Invalid("unknown option: -"@ + seq![first_byte(c)]),
{
    reveal(short_meaning);
    lemma_not_dashes(c, seq![]);
}

// ---------------------------------------------------------------- what follows from the settings

/// Rows of bits hold eight bytes, groups of the wide modes two bytes or more, and a dump is read
/// from the offset that the jump gives. Colors that depend on the terminal are not used where they
/// are switched off. All other settings stay.
pub proof fn lemma_finished(s: Settings, stem: Option<Seq<char>>, no_color: bool)
    ensures
        ({
            let t = finished(s, stem, no_color);
            &&& s.mode == DisplayMode::Binary ==> t.width == 8
            &&& s.mode != DisplayMode::Binary ==> t.width == s.width
            &&& s.mode == DisplayMode::TwoByteHex || s.mode == DisplayMode::TwoByteOctal || s.mode
                == DisplayMode::TwoByteDecimal ==> t.group == if s.group == 1 {
                2
            } else {
                s.group
            }
            &&& s.mode != DisplayMode::TwoByteHex && s.mode != DisplayMode::TwoByteOctal && s.mode
                != DisplayMode::TwoByteDecimal ==> t.group == s.group
            &&& s.mode == DisplayMode::Reverse ==> t.reverse_jump == Some(s.jump)
            &&& s.mode != DisplayMode::Reverse ==> t.reverse_jump == s.reverse_jump
            &&& s.color == ColorWhen::Auto && no_color ==> t.color == ColorWhen::Never
            &&& s.color != ColorWhen::Auto || !no_color ==> t.color == s.color
            &&& s.mode != DisplayMode::CInclude ==> t.include_name == s.include_name
            &&& s.mode == DisplayMode::CInclude && s.files.len() == 0 ==> t.include_name is None
            &&& t == (Settings {
                width: t.width,
                group: t.group,
                reverse_jump: t.reverse_jump,
                color: t.color,
                include_name: t.include_name,
                ..s
            })
        }),
{
}

/// The name of an array is that of the file: letters and digits stay, and every other character
/// becomes an underscore. Where the file has no name, it is `data`.
pub proof fn lemma_array_name(s: Settings, stem: Seq<char>, no_color: bool, i: int)
    requires
        s.mode == DisplayMode::CInclude,
        s.files.len() > 0,
        0 <= i < stem.len(),
    ensures
        finished(s, Some(stem), no_color).include_name matches Some(name) && name.len()
            == stem.len() && (alphanumeric(stem[i]) ==> name[i] == stem[i]) && (!alphanumeric(
            stem[i],
        ) ==> name[i] == '_'),
        finished(s, None, no_color).include_name == finished(
            s,
            Some(seq!['d', 'a', 't', 'a']),
            no_color,
        ).include_name,
{
    reveal_strlit("data");
    assert("data"@ =~= seq!['d', 'a', 't', 'a']);
}

/// A long option takes its value behind an equals sign or from the next argument. Where both are
/// missing the value is empty, and for colors it is `auto`.
#[verifier::rlimit(50)]
pub proof fn lemma_long_missing(raw: Seq<Seq<char>>, s: Settings)
    requires
        raw.len() > 0,
    ensures
        raw.last() == "--color"@ ==> parsed(raw, raw.len() - 1, s) == Parsed::Ready(
            Settings { color: ColorWhen::Auto, ..s },
        ),
        raw.last() == "--width"@ ==> parsed(raw, raw.len() - 1, s) == Parsed::Invalid(
            "empty value"@,
        ),
{
    let i = raw.len() - 1;
    reveal_with_fuel(parsed, 2);
    reveal_strlit("--color");
    reveal_strlit("--width");
    reveal_strlit("color");
    reveal_strlit("width");
    reveal_strlit("--");
    reveal_strlit("auto");
    reveal_strlit("");
    reveal(long_step);
    reveal(valued_step);
    reveal(setting_of);
    reveal(with_setting);
    reveal(color_when);
    lemma_long_meanings();
    lemma_no_size();
    assert(""@ =~= seq![]);
    let body = raw[i].skip(2);
    let none = Seq::<char>::empty();
    if raw[i] == "--color"@ {
        assert(body =~= "color"@);
        lemma_name_end(body, none, 0);
        assert(body + none =~= body);
        assert(body.take(body.len() as int) =~= body);
    }
    if raw[i] == "--width"@ {
        assert(body =~= "width"@);
        lemma_name_end(body, none, 0);
        assert(body + none =~= body);
        assert(body.take(body.len() as int) =~= body);
    }
}

/// A long option that is not known is named, without the value behind it.
pub proof fn lemma_long_unknown(raw: Seq<Seq<char>>, i: int, s: Settings, key: Seq<char>)
    requires
        0 <= i < raw.len(),
        named(key),
        raw[i] == seq!['-', '-'] + key,
        long_meaning(key) == Meaning::Unknown,
    ensures
        parsed(raw, i, s) == Parsed::Invalid("unknown option: --"@ + key),
{
    reveal_strlit("--");
    reveal(long_step);
    let none = Seq::<char>::empty();
    let body = raw[i].skip(2);
    assert(body =~= key);
    lemma_name_end(key, none, 0);
    assert(key + none =~= key);
    assert(key.take(key.len() as int) =~= key);
}

} // verus!
