//! The command line.

use crate::options::{
    BorderStyle, CharTable, ColorScheme, ColorWhen, DisplayMode, Endian, Options, Settings,
};
use crate::size::{
    agrees, fixed, message, parse_size_signed, parse_size_unsigned, signed_size_value, size_value,
};
use crate::text::{
    chars_of, find_char, find_from, lines_from, push_lines, spells, split_words, text_of, texts,
    words_from,
};
use vstd::prelude::*;

verus! {

// ---------------------------------------------------------------- words for settings

/// When colors are used, by name.
#[verifier::opaque]
pub open spec fn color_when(s: Seq<char>) -> Result<ColorWhen, Seq<char>> {
    if s == "auto"@ {
        Ok(ColorWhen::Auto)
    } else if s == "always"@ {
        Ok(ColorWhen::Always)
    } else if s == "never"@ {
        Ok(ColorWhen::Never)
    } else {
        Err("unknown color mode: "@ + s)
    }
}

/// A color scheme, by name.
#[verifier::opaque]
pub open spec fn color_scheme(s: Seq<char>) -> Result<ColorScheme, Seq<char>> {
    if s == "default"@ {
        Ok(ColorScheme::Default)
    } else if s == "type"@ {
        Ok(ColorScheme::Type)
    } else if s == "gradient"@ {
        Ok(ColorScheme::Gradient)
    } else {
        Err("unknown color scheme: "@ + s)
    }
}

/// A character table, by name.
#[verifier::opaque]
pub open spec fn char_table(s: Seq<char>) -> Result<CharTable, Seq<char>> {
    if s == "ascii"@ {
        Ok(CharTable::Ascii)
    } else if s == "default"@ {
        Ok(CharTable::Default)
    } else if s == "braille"@ {
        Ok(CharTable::Braille)
    } else if s == "cp437"@ {
        Ok(CharTable::Cp437)
    } else if s == "ebcdic"@ {
        Ok(CharTable::Ebcdic)
    } else {
        Err("unknown char table: "@ + s)
    }
}

/// A byte order, by name.
#[verifier::opaque]
pub open spec fn byte_order(s: Seq<char>) -> Result<Endian, Seq<char>> {
    if s == "big"@ {
        Ok(Endian::Big)
    } else if s == "little"@ {
        Ok(Endian::Little)
    } else {
        Err("unknown endian: "@ + s)
    }
}

/// A border style, by name. The option is a long one or a short one.
#[verifier::opaque]
pub open spec fn border_style(s: Seq<char>, long: bool) -> Result<BorderStyle, Seq<char>> {
    if s == "none"@ {
        Ok(BorderStyle::Off)
    } else if s == "ascii"@ {
        Ok(BorderStyle::Ascii)
    } else if s == "unicode"@ {
        Ok(BorderStyle::Unicode)
    } else if long {
        Err("unknown border style: "@ + s)
    } else {
        Err("unknown border: "@ + s)
    }
}

/// Reads when colors are used.
pub fn parse_color_when(s: &str) -> (r: Result<ColorWhen, String>)
    ensures
        agrees(r, color_when(s@)),
{
    proof {
        reveal(color_when);
    }
    let c: Vec<char> = chars_of(s);
    if spells(&c, "auto") {
        Ok(ColorWhen::Auto)
    } else if spells(&c, "always") {
        Ok(ColorWhen::Always)
    } else if spells(&c, "never") {
        Ok(ColorWhen::Never)
    } else {
        Err(message("unknown color mode: ", &c))
    }
}

/// Reads a color scheme.
pub fn parse_scheme(s: &str) -> (r: Result<ColorScheme, String>)
    ensures
        agrees(r, color_scheme(s@)),
{
    proof {
        reveal(color_scheme);
    }
    let c: Vec<char> = chars_of(s);
    if spells(&c, "default") {
        Ok(ColorScheme::Default)
    } else if spells(&c, "type") {
        Ok(ColorScheme::Type)
    } else if spells(&c, "gradient") {
        Ok(ColorScheme::Gradient)
    } else {
        Err(message("unknown color scheme: ", &c))
    }
}

/// Reads a character table.
pub fn parse_char_table(s: &str) -> (r: Result<CharTable, String>)
    ensures
        agrees(r, char_table(s@)),
{
    proof {
        reveal(char_table);
    }
    let c: Vec<char> = chars_of(s);
    if spells(&c, "ascii") {
        Ok(CharTable::Ascii)
    } else if spells(&c, "default") {
        Ok(CharTable::Default)
    } else if spells(&c, "braille") {
        Ok(CharTable::Braille)
    } else if spells(&c, "cp437") {
        Ok(CharTable::Cp437)
    } else if spells(&c, "ebcdic") {
        Ok(CharTable::Ebcdic)
    } else {
        Err(message("unknown char table: ", &c))
    }
}

/// Reads a byte order.
fn parse_endian(s: &str) -> (r: Result<Endian, String>)
    ensures
        agrees(r, byte_order(s@)),
{
    proof {
        reveal(byte_order);
    }
    let c: Vec<char> = chars_of(s);
    if spells(&c, "big") {
        Ok(Endian::Big)
    } else if spells(&c, "little") {
        Ok(Endian::Little)
    } else {
        Err(message("unknown endian: ", &c))
    }
}

/// Reads a border style.
fn parse_border(s: &str, long: bool) -> (r: Result<BorderStyle, String>)
    ensures
        agrees(r, border_style(s@, long)),
{
    proof {
        reveal(border_style);
    }
    let c: Vec<char> = chars_of(s);
    if spells(&c, "none") {
        Ok(BorderStyle::Off)
    } else if spells(&c, "ascii") {
        Ok(BorderStyle::Ascii)
    } else if spells(&c, "unicode") {
        Ok(BorderStyle::Unicode)
    } else if long {
        Err(message("unknown border style: ", &c))
    } else {
        Err(message("unknown border: ", &c))
    }
}

// ---------------------------------------------------------------- options

/// An option without a value.
#[derive(Clone, Copy, PartialEq, Eq, Debug, Structural)]
pub enum Flag {
    Mode(DisplayMode),
    NoAscii,
    Minimal,
    NoPosition,
    Uppercase,
    OffsetDec,
    Squeeze,
    Quiet,
}

/// An option with a value.
#[derive(Clone, Copy, PartialEq, Eq, Debug, Structural)]
pub enum Valued {
    Width,
    Group,
    Endian,
    Border,
    Skip,
    Length,
    Jump,
    Color,
    Scheme,
    Table,
    MaxLines,
    Format,
    FormatFile,
}

/// What the name of an option means.
#[derive(Clone, Copy, PartialEq, Eq, Debug, Structural)]
pub enum Meaning {
    Help,
    Version,
    Flag(Flag),
    Valued(Valued),
    Unknown,
}

/// The long options.
#[verifier::opaque]
pub open spec fn long_meaning(key: Seq<char>) -> Meaning {
    if key == "help"@ {
        Meaning::Help
    } else if key == "version"@ {
        Meaning::Version
    } else if key == "hex"@ {
        Meaning::Flag(Flag::Mode(DisplayMode::OneByteHex))
    } else if key == "hex-wide"@ {
        Meaning::Flag(Flag::Mode(DisplayMode::TwoByteHex))
    } else if key == "octal"@ {
        Meaning::Flag(Flag::Mode(DisplayMode::OneByteOctal))
    } else if key == "octal-wide"@ {
        Meaning::Flag(Flag::Mode(DisplayMode::TwoByteOctal))
    } else if key == "decimal"@ {
        Meaning::Flag(Flag::Mode(DisplayMode::OneByteDecimal))
    } else if key == "decimal-wide"@ {
        Meaning::Flag(Flag::Mode(DisplayMode::TwoByteDecimal))
    } else if key == "chars"@ {
        Meaning::Flag(Flag::Mode(DisplayMode::OneByteChar))
    } else if key == "binary"@ {
        Meaning::Flag(Flag::Mode(DisplayMode::Binary))
    } else if key == "plain"@ {
        Meaning::Flag(Flag::Mode(DisplayMode::Plain))
    } else if key == "include"@ {
        Meaning::Flag(Flag::Mode(DisplayMode::CInclude))
    } else if key == "reverse"@ {
        Meaning::Flag(Flag::Mode(DisplayMode::Reverse))
    } else if key == "no-ascii"@ {
        Meaning::Flag(Flag::NoAscii)
    } else if key == "minimal"@ {
        Meaning::Flag(Flag::Minimal)
    } else if key == "no-position"@ {
        Meaning::Flag(Flag::NoPosition)
    } else if key == "uppercase"@ {
        Meaning::Flag(Flag::Uppercase)
    } else if key == "offset-dec"@ {
        Meaning::Flag(Flag::OffsetDec)
    } else if key == "squeeze"@ {
        Meaning::Flag(Flag::Squeeze)
    } else if key == "quiet"@ {
        Meaning::Flag(Flag::Quiet)
    } else if key == "width"@ {
        Meaning::Valued(Valued::Width)
    } else if key == "group"@ {
        Meaning::Valued(Valued::Group)
    } else if key == "endian"@ {
        Meaning::Valued(Valued::Endian)
    } else if key == "border"@ {
        Meaning::Valued(Valued::Border)
    } else if key == "skip"@ {
        Meaning::Valued(Valued::Skip)
    } else if key == "length"@ {
        Meaning::Valued(Valued::Length)
    } else if key == "jump"@ {
        Meaning::Valued(Valued::Jump)
    } else if key == "color"@ {
        Meaning::Valued(Valued::Color)
    } else if key == "scheme"@ {
        Meaning::Valued(Valued::Scheme)
    } else if key == "table"@ {
        Meaning::Valued(Valued::Table)
    } else if key == "max-lines"@ {
        Meaning::Valued(Valued::MaxLines)
    } else if key == "format"@ {
        Meaning::Valued(Valued::Format)
    } else if key == "format-file"@ {
        Meaning::Valued(Valued::FormatFile)
    } else {
        Meaning::Unknown
    }
}

/// The short options.
#[verifier::opaque]
pub open spec fn short_meaning(c: char) -> Meaning {
    match c {
        'h' => Meaning::Help,
        'v' => Meaning::Version,
        'x' => Meaning::Flag(Flag::Mode(DisplayMode::OneByteHex)),
        'X' => Meaning::Flag(Flag::Mode(DisplayMode::TwoByteHex)),
        'o' => Meaning::Flag(Flag::Mode(DisplayMode::OneByteOctal)),
        'O' => Meaning::Flag(Flag::Mode(DisplayMode::TwoByteOctal)),
        'd' => Meaning::Flag(Flag::Mode(DisplayMode::OneByteDecimal)),
        'D' => Meaning::Flag(Flag::Mode(DisplayMode::TwoByteDecimal)),
        'c' => Meaning::Flag(Flag::Mode(DisplayMode::OneByteChar)),
        'b' => Meaning::Flag(Flag::Mode(DisplayMode::Binary)),
        'p' => Meaning::Flag(Flag::Mode(DisplayMode::Plain)),
        'i' => Meaning::Flag(Flag::Mode(DisplayMode::CInclude)),
        'r' => Meaning::Flag(Flag::Mode(DisplayMode::Reverse)),
        'A' => Meaning::Flag(Flag::NoAscii),
        'P' => Meaning::Flag(Flag::NoPosition),
        'u' => Meaning::Flag(Flag::Uppercase),
        'w' => Meaning::Flag(Flag::Squeeze),
        'q' => Meaning::Flag(Flag::Quiet),
        'W' => Meaning::Valued(Valued::Width),
        'g' => Meaning::Valued(Valued::Group),
        'E' => Meaning::Valued(Valued::Endian),
        'B' => Meaning::Valued(Valued::Border),
        's' => Meaning::Valued(Valued::Skip),
        'n' => Meaning::Valued(Valued::Length),
        'j' => Meaning::Valued(Valued::Jump),
        'L' => Meaning::Valued(Valued::Color),
        'S' => Meaning::Valued(Valued::Scheme),
        'T' => Meaning::Valued(Valued::Table),
        'm' => Meaning::Valued(Valued::MaxLines),
        'F' => Meaning::Valued(Valued::Format),
        'f' => Meaning::Valued(Valued::FormatFile),
        _ => Meaning::Unknown,
    }
}

/// The settings with an option without a value.
#[verifier::opaque]
pub open spec fn with_flag(s: Settings, f: Flag) -> Settings {
    match f {
        Flag::Mode(mode) => Settings { mode, ..s },
        Flag::NoAscii => Settings { no_ascii: true, ..s },
        Flag::Minimal => Settings { minimal: true, ..s },
        Flag::NoPosition => Settings { no_position: true, ..s },
        Flag::Uppercase => Settings { uppercase: true, ..s },
        Flag::OffsetDec => Settings { offset_dec: true, ..s },
        Flag::Squeeze => Settings { squeeze: true, ..s },
        Flag::Quiet => Settings { quiet: true, ..s },
    }
}

/// One setting, with texts as sequences of characters.
pub enum Setting {
    Width(usize),
    Group(usize),
    Endian(Endian),
    Border(BorderStyle),
    Skip(i64),
    Length(u64),
    Jump(i64),
    Color(ColorWhen),
    Scheme(ColorScheme),
    Table(CharTable),
    MaxLines(u64),
    Format(Seq<char>),
}

/// The setting that an option makes with its value, or what is wrong with the value. Format files
/// hold their values elsewhere.
#[verifier::opaque]
pub open spec fn setting_of(w: Valued, long: bool, v: Seq<char>) -> Result<Setting, Seq<char>> {
    match w {
        Valued::Width => match size_value(v) {
            Err(e) => Err(e),
            Ok(n) => if n as usize == 0 {
                Err(
                    if long {
                        "--width must be > 0"@
                    } else {
                        "-W must be > 0"@
                    },
                )
            } else {
                Ok(Setting::Width(n as usize))
            },
        },
        Valued::Group => match size_value(v) {
            Err(e) => Err(e),
            Ok(n) => if n as usize == 1 || n as usize == 2 || n as usize == 4 || n as usize == 8 {
                Ok(Setting::Group(n as usize))
            } else {
                Err(
                    if long {
                        "--group must be 1, 2, 4, or 8"@
                    } else {
                        "-g must be 1, 2, 4, or 8"@
                    },
                )
            },
        },
        Valued::Endian => match byte_order(v) {
            Err(e) => Err(e),
            Ok(x) => Ok(Setting::Endian(x)),
        },
        Valued::Border => match border_style(v, long) {
            Err(e) => Err(e),
            Ok(x) => Ok(Setting::Border(x)),
        },
        Valued::Skip => match signed_size_value(v) {
            Err(e) => Err(e),
            Ok(x) => Ok(Setting::Skip(x)),
        },
        Valued::Length => match size_value(v) {
            Err(e) => Err(e),
            Ok(x) => Ok(Setting::Length(x)),
        },
        Valued::Jump => match signed_size_value(v) {
            Err(e) => Err(e),
            Ok(x) => Ok(Setting::Jump(x)),
        },
        Valued::Color => match color_when(v) {
            Err(e) => Err(e),
            Ok(x) => Ok(Setting::Color(x)),
        },
        Valued::Scheme => match color_scheme(v) {
            Err(e) => Err(e),
            Ok(x) => Ok(Setting::Scheme(x)),
        },
        Valued::Table => match char_table(v) {
            Err(e) => Err(e),
            Ok(x) => Ok(Setting::Table(x)),
        },
        Valued::MaxLines => match size_value(v) {
            Err(e) => Err(e),
            Ok(x) => Ok(Setting::MaxLines(x)),
        },
        Valued::Format | Valued::FormatFile => if v.contains('"') {
            Ok(Setting::Format(v))
        } else if long {
            Err("--format expects a quoted format string: "@ + v)
        } else {
            Err("-F expects a quoted format string: "@ + v)
        },
    }
}

/// The settings with one of them made.
#[verifier::opaque]
pub open spec fn with_setting(s: Settings, x: Setting) -> Settings {
    match x {
        Setting::Width(width) => Settings { width, ..s },
        Setting::Group(group) => Settings { group, ..s },
        Setting::Endian(endian) => Settings { endian, ..s },
        Setting::Border(border) => Settings { border, ..s },
        Setting::Skip(skip) => Settings { skip, ..s },
        Setting::Length(n) => Settings { length: Some(n), ..s },
        Setting::Jump(jump) => Settings { jump, ..s },
        Setting::Color(color) => Settings { color, ..s },
        Setting::Scheme(scheme) => Settings { scheme, ..s },
        Setting::Table(table) => Settings { table, ..s },
        Setting::MaxLines(n) => Settings { max_lines: Some(n), ..s },
        Setting::Format(v) => Settings { formats: s.formats.push(v), ..s },
    }
}

/// The long options.
fn long_option(key: &[char]) -> (r: Meaning)
    ensures
        r == long_meaning(key@),
{
    proof {
        reveal(long_meaning);
    }
    if spells(key, "help") {
        Meaning::Help
    } else if spells(key, "version") {
        Meaning::Version
    } else if spells(key, "hex") {
        Meaning::Flag(Flag::Mode(DisplayMode::OneByteHex))
    } else if spells(key, "hex-wide") {
        Meaning::Flag(Flag::Mode(DisplayMode::TwoByteHex))
    } else if spells(key, "octal") {
        Meaning::Flag(Flag::Mode(DisplayMode::OneByteOctal))
    } else if spells(key, "octal-wide") {
        Meaning::Flag(Flag::Mode(DisplayMode::TwoByteOctal))
    } else if spells(key, "decimal") {
        Meaning::Flag(Flag::Mode(DisplayMode::OneByteDecimal))
    } else if spells(key, "decimal-wide") {
        Meaning::Flag(Flag::Mode(DisplayMode::TwoByteDecimal))
    } else if spells(key, "chars") {
        Meaning::Flag(Flag::Mode(DisplayMode::OneByteChar))
    } else if spells(key, "binary") {
        Meaning::Flag(Flag::Mode(DisplayMode::Binary))
    } else if spells(key, "plain") {
        Meaning::Flag(Flag::Mode(DisplayMode::Plain))
    } else if spells(key, "include") {
        Meaning::Flag(Flag::Mode(DisplayMode::CInclude))
    } else if spells(key, "reverse") {
        Meaning::Flag(Flag::Mode(DisplayMode::Reverse))
    } else if spells(key, "no-ascii") {
        Meaning::Flag(Flag::NoAscii)
    } else if spells(key, "minimal") {
        Meaning::Flag(Flag::Minimal)
    } else if spells(key, "no-position") {
        Meaning::Flag(Flag::NoPosition)
    } else if spells(key, "uppercase") {
        Meaning::Flag(Flag::Uppercase)
    } else if spells(key, "offset-dec") {
        Meaning::Flag(Flag::OffsetDec)
    } else if spells(key, "squeeze") {
        Meaning::Flag(Flag::Squeeze)
    } else if spells(key, "quiet") {
        Meaning::Flag(Flag::Quiet)
    } else if spells(key, "width") {
        Meaning::Valued(Valued::Width)
    } else if spells(key, "group") {
        Meaning::Valued(Valued::Group)
    } else if spells(key, "endian") {
        Meaning::Valued(Valued::Endian)
    } else if spells(key, "border") {
        Meaning::Valued(Valued::Border)
    } else if spells(key, "skip") {
        Meaning::Valued(Valued::Skip)
    } else if spells(key, "length") {
        Meaning::Valued(Valued::Length)
    } else if spells(key, "jump") {
        Meaning::Valued(Valued::Jump)
    } else if spells(key, "color") {
        Meaning::Valued(Valued::Color)
    } else if spells(key, "scheme") {
        Meaning::Valued(Valued::Scheme)
    } else if spells(key, "table") {
        Meaning::Valued(Valued::Table)
    } else if spells(key, "max-lines") {
        Meaning::Valued(Valued::MaxLines)
    } else if spells(key, "format") {
        Meaning::Valued(Valued::Format)
    } else if spells(key, "format-file") {
        Meaning::Valued(Valued::FormatFile)
    } else {
        Meaning::Unknown
    }
}

/// The short options.
fn short_option(c: char) -> (r: Meaning)
    ensures
        r == short_meaning(c),
{
    proof {
        reveal(short_meaning);
    }
    match c {
        'h' => Meaning::Help,
        'v' => Meaning::Version,
        'x' => Meaning::Flag(Flag::Mode(DisplayMode::OneByteHex)),
        'X' => Meaning::Flag(Flag::Mode(DisplayMode::TwoByteHex)),
        'o' => Meaning::Flag(Flag::Mode(DisplayMode::OneByteOctal)),
        'O' => Meaning::Flag(Flag::Mode(DisplayMode::TwoByteOctal)),
        'd' => Meaning::Flag(Flag::Mode(DisplayMode::OneByteDecimal)),
        'D' => Meaning::Flag(Flag::Mode(DisplayMode::TwoByteDecimal)),
        'c' => Meaning::Flag(Flag::Mode(DisplayMode::OneByteChar)),
        'b' => Meaning::Flag(Flag::Mode(DisplayMode::Binary)),
        'p' => Meaning::Flag(Flag::Mode(DisplayMode::Plain)),
        'i' => Meaning::Flag(Flag::Mode(DisplayMode::CInclude)),
        'r' => Meaning::Flag(Flag::Mode(DisplayMode::Reverse)),
        'A' => Meaning::Flag(Flag::NoAscii),
        'P' => Meaning::Flag(Flag::NoPosition),
        'u' => Meaning::Flag(Flag::Uppercase),
        'w' => Meaning::Flag(Flag::Squeeze),
        'q' => Meaning::Flag(Flag::Quiet),
        'W' => Meaning::Valued(Valued::Width),
        'g' => Meaning::Valued(Valued::Group),
        'E' => Meaning::Valued(Valued::Endian),
        'B' => Meaning::Valued(Valued::Border),
        's' => Meaning::Valued(Valued::Skip),
        'n' => Meaning::Valued(Valued::Length),
        'j' => Meaning::Valued(Valued::Jump),
        'L' => Meaning::Valued(Valued::Color),
        'S' => Meaning::Valued(Valued::Scheme),
        'T' => Meaning::Valued(Valued::Table),
        'm' => Meaning::Valued(Valued::MaxLines),
        'F' => Meaning::Valued(Valued::Format),
        'f' => Meaning::Valued(Valued::FormatFile),
        _ => Meaning::Unknown,
    }
}

/// Sets an option without a value.
fn apply_flag(opts: &mut Options, f: Flag)
    ensures
        final(opts)@ == with_flag(old(opts)@, f),
{
    proof {
        reveal(with_flag);
    }
    match f {
        Flag::Mode(mode) => {
            opts.mode = mode;
        },
        Flag::NoAscii => {
            opts.no_ascii = true;
        },
        Flag::Minimal => {
            opts.minimal = true;
        },
        Flag::NoPosition => {
            opts.no_position = true;
        },
        Flag::Uppercase => {
            opts.uppercase = true;
        },
        Flag::OffsetDec => {
            opts.offset_dec = true;
        },
        Flag::Squeeze => {
            opts.squeeze = true;
        },
        Flag::Quiet => {
            opts.quiet = true;
        },
    }
}

/// Does the text hold a quotation mark?
fn has_quote(v: &[char]) -> (r: bool)
    ensures
        r == v@.contains('"'),
{
    let at: usize = find_char(v, '"', 0);
    proof {
        lemma_find_first(v@, '"', 0);
    }
    at < v.len()
}

/// Before the place that was found the character does not occur.
proof fn lemma_find_first(s: Seq<char>, c: char, pos: int)
    requires
        0 <= pos <= s.len(),
    ensures
        pos <= find_from(s, c, pos) <= s.len(),
        forall|i: int| pos <= i < find_from(s, c, pos) ==> #[trigger] s[i] != c,
    decreases s.len() - pos,
{
    if pos < s.len() && s[pos] != c {
        lemma_find_first(s, c, pos + 1);
    }
}

/// One setting.
pub enum Value {
    Width(usize),
    Group(usize),
    Endian(Endian),
    Border(BorderStyle),
    Skip(i64),
    Length(u64),
    Jump(i64),
    Color(ColorWhen),
    Scheme(ColorScheme),
    Table(CharTable),
    MaxLines(u64),
    Format(String),
}

impl View for Value {
    type V = Setting;

    open spec fn view(&self) -> Setting {
        match self {
            Value::Width(x) => Setting::Width(*x),
            Value::Group(x) => Setting::Group(*x),
            Value::Endian(x) => Setting::Endian(*x),
            Value::Border(x) => Setting::Border(*x),
            Value::Skip(x) => Setting::Skip(*x),
            Value::Length(x) => Setting::Length(*x),
            Value::Jump(x) => Setting::Jump(*x),
            Value::Color(x) => Setting::Color(*x),
            Value::Scheme(x) => Setting::Scheme(*x),
            Value::Table(x) => Setting::Table(*x),
            Value::MaxLines(x) => Setting::MaxLines(*x),
            Value::Format(x) => Setting::Format(x@),
        }
    }
}

/// Reads a size for an option.
fn read_size(w: Valued, long: bool, v: &str) -> (r: Result<Value, String>)
    requires
        w == Valued::Width || w == Valued::Group || w == Valued::Length || w == Valued::MaxLines,
    ensures
        match setting_of(w, long, v@) {
            Ok(x) => r matches Ok(y) && y@ == x,
            Err(e) => r matches Err(m) && m@ == e,
        },
{
    proof {
        reveal(setting_of);
    }
    match parse_size_unsigned(v) {
        Err(e) => Err(e),
        Ok(n) => match w {
            Valued::Width => {
                let width: usize = n as usize;
                if width != 0 {
                    Ok(Value::Width(width))
                } else if long {
                    Err(fixed("--width must be > 0"))
                } else {
                    Err(fixed("-W must be > 0"))
                }
            },
            Valued::Group => {
                let group: usize = n as usize;
                if group == 1 || group == 2 || group == 4 || group == 8 {
                    Ok(Value::Group(group))
                } else if long {
                    Err(fixed("--group must be 1, 2, 4, or 8"))
                } else {
                    Err(fixed("-g must be 1, 2, 4, or 8"))
                }
            },
            Valued::Length => Ok(Value::Length(n)),
            _ => Ok(Value::MaxLines(n)),
        },
    }
}

/// Reads the value of an option.
fn read_value(w: Valued, long: bool, v: &str) -> (r: Result<Value, String>)
    ensures
        match setting_of(w, long, v@) {
            Ok(x) => r matches Ok(y) && y@ == x,
            Err(e) => r matches Err(m) && m@ == e,
        },
{
    proof {
        reveal(setting_of);
    }
    match w {
        Valued::Width | Valued::Group | Valued::Length | Valued::MaxLines => read_size(w, long, v),
        Valued::Endian => match parse_endian(v) {
            Err(e) => Err(e),
            Ok(x) => Ok(Value::Endian(x)),
        },
        Valued::Border => match parse_border(v, long) {
            Err(e) => Err(e),
            Ok(x) => Ok(Value::Border(x)),
        },
        Valued::Skip => match parse_size_signed(v) {
            Err(e) => Err(e),
            Ok(x) => Ok(Value::Skip(x)),
        },
        Valued::Jump => match parse_size_signed(v) {
            Err(e) => Err(e),
            Ok(x) => Ok(Value::Jump(x)),
        },
        Valued::Color => match parse_color_when(v) {
            Err(e) => Err(e),
            Ok(x) => Ok(Value::Color(x)),
        },
        Valued::Scheme => match parse_scheme(v) {
            Err(e) => Err(e),
            Ok(x) => Ok(Value::Scheme(x)),
        },
        Valued::Table => match parse_char_table(v) {
            Err(e) => Err(e),
            Ok(x) => Ok(Value::Table(x)),
        },
        Valued::Format | Valued::FormatFile => {
            let c: Vec<char> = chars_of(v);
            if has_quote(&c) {
                Ok(Value::Format(text_of(&c)))
            } else if long {
                Err(message("--format expects a quoted format string: ", &c))
            } else {
                Err(message("-F expects a quoted format string: ", &c))
            }
        },
    }
}

/// Adds a format.
fn add_format(opts: &mut Options, text: String)
    ensures
        final(opts)@ == (Settings { formats: old(opts)@.formats.push(text@), ..old(opts)@ }),
{
    let ghost before = texts(opts.formats@);
    let ghost added = text@;
    opts.formats.push(text);
    assert(texts(opts.formats@) =~= before.push(added));
}

/// Makes a setting that is one of several choices, or a format.
fn apply_choice(opts: &mut Options, x: Value)
    requires
        x is Endian || x is Border || x is Color || x is Scheme || x is Table || x is Format,
    ensures
        final(opts)@ == with_setting(old(opts)@, x@),
{
    proof {
        reveal(with_setting);
    }
    match x {
        Value::Endian(endian) => {
            opts.endian = endian;
        },
        Value::Border(border) => {
            opts.border = border;
        },
        Value::Color(color) => {
            opts.color = color;
        },
        Value::Scheme(scheme) => {
            opts.scheme = scheme;
        },
        Value::Table(table) => {
            opts.table = table;
        },
        Value::Format(text) => {
            add_format(opts, text);
        },
        _ => {},
    }
}

/// Makes one setting.
fn apply_value(opts: &mut Options, x: Value)
    ensures
        final(opts)@ == with_setting(old(opts)@, x@),
{
    proof {
        reveal(with_setting);
    }
    match x {
        Value::Width(width) => {
            opts.width = width;
        },
        Value::Group(group) => {
            opts.group = group;
        },
        Value::Skip(skip) => {
            opts.skip = skip;
        },
        Value::Length(n) => {
            opts.length = Some(n);
        },
        Value::Jump(jump) => {
            opts.jump = jump;
        },
        Value::MaxLines(n) => {
            opts.max_lines = Some(n);
        },
        _ => {
            apply_choice(opts, x);
        },
    }
}

// ---------------------------------------------------------------- the command line

/// What has been made of the command line.
pub enum Parsed {
    /// All arguments have been read.
    Ready(Settings),
    Help,
    Version,
    /// A file of formats has to be read before the argument `next`.
    ReadFile { name: Seq<char>, long: bool, settings: Settings, next: int },
    Invalid(Seq<char>),
}

/// What one argument does: it leads to another, or to a result.
pub enum ArgStep {
    Next(Settings, int),
    Stop(Parsed),
}

/// The value of an option in the argument after it.
pub open spec fn next_value(raw: Seq<Seq<char>>, i: int, missing: Seq<char>) -> (Seq<char>, int) {
    if i + 1 < raw.len() {
        (raw[i + 1], i + 2)
    } else {
        (missing, raw.len() as int)
    }
}

/// What an option with its value does.
#[verifier::opaque]
pub open spec fn valued_step(
    s: Settings,
    w: Valued,
    long: bool,
    v: Seq<char>,
    next: int,
) -> ArgStep {
    if w == Valued::FormatFile {
        ArgStep::Stop(Parsed::ReadFile { name: v, long, settings: s, next })
    } else {
        match setting_of(w, long, v) {
            Ok(x) => ArgStep::Next(with_setting(s, x), next),
            Err(e) => ArgStep::Stop(Parsed::Invalid(e)),
        }
    }
}

/// What a long option does. Its value follows an equals sign, or is the next argument; where there
/// is none, it is empty, or `auto` for colors.
#[verifier::opaque]
pub open spec fn long_step(raw: Seq<Seq<char>>, i: int, s: Settings) -> ArgStep {
    let body = raw[i].skip(2);
    let eq = find_from(body, '=', 0);
    let key = body.take(eq);
    match long_meaning(key) {
        Meaning::Help => ArgStep::Stop(Parsed::Help),
        Meaning::Version => ArgStep::Stop(Parsed::Version),
        Meaning::Flag(f) => ArgStep::Next(with_flag(s, f), i + 1),
        Meaning::Valued(w) => if eq < body.len() {
            valued_step(s, w, true, body.skip(eq + 1), i + 1)
        } else {
            let (v, next) = next_value(
                raw,
                i,
                if w == Valued::Color {
                    "auto"@
                } else {
                    ""@
                },
            );
            valued_step(s, w, true, v, next)
        },
        Meaning::Unknown => ArgStep::Stop(Parsed::Invalid("unknown option: --"@ + key)),
    }
}

/// The first byte of a character, as the character with that number.
pub open spec fn first_byte(c: char) -> char {
    vstd::utf8::encode_utf8(seq![c])[0] as char
}

/// What short options do, from place `j` of their argument on. A value is the rest of the argument,
/// or the next argument.
pub open spec fn short_step(raw: Seq<Seq<char>>, i: int, s: Settings, j: int) -> ArgStep
    decreases raw[i].len() - j,
{
    let arg = raw[i];
    if j < 0 || j >= arg.len() {
        ArgStep::Next(s, i + 1)
    } else {
        match short_meaning(arg[j]) {
            Meaning::Help => ArgStep::Stop(Parsed::Help),
            Meaning::Version => ArgStep::Stop(Parsed::Version),
            Meaning::Flag(f) => short_step(raw, i, with_flag(s, f), j + 1),
            Meaning::Valued(w) => if j + 1 < arg.len() {
                valued_step(s, w, false, arg.skip(j + 1), i + 1)
            } else if i + 1 < raw.len() {
                valued_step(s, w, false, raw[i + 1], i + 2)
            } else {
                ArgStep::Stop(Parsed::Invalid("missing argument for -"@ + seq![arg[j]]))
            },
            Meaning::Unknown => ArgStep::Stop(
                Parsed::Invalid("unknown option: -"@ + seq![first_byte(arg[j])]),
            ),
        }
    }
}

/// What one argument does.
pub open spec fn arg_step(raw: Seq<Seq<char>>, i: int, s: Settings) -> ArgStep {
    let arg = raw[i];
    if arg == "--"@ {
        ArgStep::Stop(Parsed::Ready(Settings { files: s.files + raw.skip(i + 1), ..s }))
    } else if arg.len() >= 2 && arg[0] == '-' && arg[1] == '-' {
        long_step(raw, i, s)
    } else if arg.len() > 1 && arg[0] == '-' {
        short_step(raw, i, s, 1)
    } else {
        ArgStep::Next(Settings { files: s.files.push(arg), ..s }, i + 1)
    }
}

/// What is made of the arguments from number `i` on.
pub open spec fn parsed(raw: Seq<Seq<char>>, i: int, s: Settings) -> Parsed
    decreases raw.len() - i,
{
    if i < 0 || i >= raw.len() {
        Parsed::Ready(s)
    } else {
        match arg_step(raw, i, s) {
            ArgStep::Stop(p) => p,
            ArgStep::Next(t, next) => if i < next <= raw.len() {
                parsed(raw, next, t)
            } else {
                Parsed::Ready(t)
            },
        }
    }
}

/// What has been made of the command line.
pub enum ArgResult {
    Ready(Options),
    Help,
    Version,
    /// A file of formats has to be read before the argument `next`.
    ReadFile { name: String, long: bool, options: Options, next: usize },
    Invalid(String),
}

impl View for ArgResult {
    type V = Parsed;

    open spec fn view(&self) -> Parsed {
        match self {
            ArgResult::Ready(o) => Parsed::Ready(o@),
            ArgResult::Help => Parsed::Help,
            ArgResult::Version => Parsed::Version,
            ArgResult::ReadFile { name, long, options, next } => Parsed::ReadFile {
                name: name@,
                long: *long,
                settings: options@,
                next: *next as int,
            },
            ArgResult::Invalid(m) => Parsed::Invalid(m@),
        }
    }
}

/// What one argument does: it leads to another, or to a result.
pub enum Outcome {
    Next(Options, usize),
    Stop(ArgResult),
}

impl View for Outcome {
    type V = ArgStep;

    open spec fn view(&self) -> ArgStep {
        match self {
            Outcome::Next(o, next) => ArgStep::Next(o@, *next as int),
            Outcome::Stop(r) => ArgStep::Stop(r@),
        }
    }
}

/// Sets an option with its value, or asks for a file of formats.
fn take_value(opts: Options, w: Valued, long: bool, v: &str, next: usize) -> (r: Outcome)
    ensures
        r@ == valued_step(opts@, w, long, v@, next as int),
{
    proof {
        reveal(valued_step);
    }
    let mut opts = opts;
    if w == Valued::FormatFile {
        return Outcome::Stop(ArgResult::ReadFile { name: fixed(v), long, options: opts, next });
    }
    match read_value(w, long, v) {
        Ok(x) => {
            apply_value(&mut opts, x);
            Outcome::Next(opts, next)
        },
        Err(e) => Outcome::Stop(ArgResult::Invalid(e)),
    }
}

/// Reads a long option.
fn read_long(raw: &Vec<String>, i: usize, arg: &[char], opts: Options) -> (r: Outcome)
    requires
        i < raw@.len(),
        arg@ == raw@[i as int]@,
        arg@.len() >= 2,
    ensures
        r@ == long_step(texts(raw@), i as int, opts@),
{
    proof {
        reveal(long_step);
    }
    let n: usize = raw.len();
    let body: &[char] = vstd::slice::slice_subrange(arg, 2, arg.len());
    assert(body@ =~= texts(raw@)[i as int].skip(2));
    let eq: usize = find_char(body, '=', 0);
    let key: &[char] = vstd::slice::slice_subrange(body, 0, eq);
    assert(key@ =~= body@.take(eq as int));
    match long_option(key) {
        Meaning::Help => Outcome::Stop(ArgResult::Help),
        Meaning::Version => Outcome::Stop(ArgResult::Version),
        Meaning::Flag(f) => {
            let mut opts = opts;
            apply_flag(&mut opts, f);
            Outcome::Next(opts, i + 1)
        },
        Meaning::Valued(w) => {
            if eq < body.len() {
                let rest: &[char] = vstd::slice::slice_subrange(body, eq + 1, body.len());
                assert(rest@ =~= body@.skip(eq + 1));
                let v: String = text_of(rest);
                take_value(opts, w, true, v.as_str(), i + 1)
            } else if i + 1 < n {
                take_value(opts, w, true, raw[i + 1].as_str(), i + 2)
            } else if w == Valued::Color {
                take_value(opts, w, true, "auto", n)
            } else {
                take_value(opts, w, true, "", n)
            }
        },
        Meaning::Unknown => Outcome::Stop(ArgResult::Invalid(message("unknown option: --", key))),
    }
}

/// The first byte of a character, as the character with that number.
fn first_byte_of(c: char) -> (r: char)
    ensures
        r == first_byte(c),
{
    let one: [char; 1] = [c];
    let s: String = text_of(&one);
    assert(one@ =~= seq![c]);
    let b: &[u8] = s.as_str().as_bytes();
    proof {
        lemma_encoded_nonempty(c);
    }
    b[0] as char
}

/// Every character is encoded with at least one byte.
proof fn lemma_encoded_nonempty(c: char)
    ensures
        vstd::utf8::encode_utf8(seq![c]).len() > 0,
{
    reveal_with_fuel(vstd::utf8::encode_utf8, 2);
}

/// Reads short options.
fn read_short(raw: &Vec<String>, i: usize, arg: &[char], settings: Options) -> (r: Outcome)
    requires
        i < raw@.len(),
        arg@ == raw@[i as int]@,
        arg@.len() > 1,
    ensures
        r@ == short_step(texts(raw@), i as int, settings@, 1),
{
    let n: usize = raw.len();
    let ghost first = settings@;
    let mut opts = settings;
    let ghost args = texts(raw@);
    let len: usize = arg.len();
    let mut j: usize = 1;
    while j < len
        invariant
            n == raw@.len(),
            i < n,
            args == texts(raw@),
            first == settings@,
            arg@ == args[i as int],
            len == arg@.len(),
            1 <= j <= len,
            short_step(args, i as int, first, 1) == short_step(args, i as int, opts@, j as int),
        decreases len - j,
    {
        match short_option(arg[j]) {
            Meaning::Help => {
                return Outcome::Stop(ArgResult::Help);
            },
            Meaning::Version => {
                return Outcome::Stop(ArgResult::Version);
            },
            Meaning::Flag(f) => {
                apply_flag(&mut opts, f);
            },
            Meaning::Valued(w) => {
                if j + 1 < len {
                    let rest: &[char] = vstd::slice::slice_subrange(arg, j + 1, len);
                    assert(rest@ =~= arg@.skip(j + 1));
                    let v: String = text_of(rest);
                    return take_value(opts, w, false, v.as_str(), i + 1);
                } else if i + 1 < n {
                    return take_value(opts, w, false, raw[i + 1].as_str(), i + 2);
                } else {
                    let flag: [char; 1] = [arg[j]];
                    assert(flag@ =~= seq![arg@[j as int]]);
                    return Outcome::Stop(
                        ArgResult::Invalid(message("missing argument for -", &flag)),
                    );
                }
            },
            Meaning::Unknown => {
                let flag: [char; 1] = [first_byte_of(arg[j])];
                assert(flag@ =~= seq![first_byte(arg@[j as int])]);
                return Outcome::Stop(ArgResult::Invalid(message("unknown option: -", &flag)));
            },
        }
        j = j + 1;
    }
    Outcome::Next(opts, i + 1)
}

/// Takes the arguments from number `from` on as files.
fn take_files(raw: &Vec<String>, from: usize, options: Options) -> (r: Options)
    requires
        from <= raw@.len(),
    ensures
        r@ == (Settings { files: options@.files + texts(raw@).skip(from as int), ..options@ }),
{
    let ghost args = texts(raw@);
    let ghost before = options@;
    let mut opts = options;
    assert(before.files + args.subrange(from as int, from as int) =~= before.files);
    for k in from..raw.len()
        invariant
            from <= raw@.len(),
            args == texts(raw@),
            opts@ == (Settings {
                files: before.files + args.subrange(from as int, k as int),
                ..before
            }),
    {
        let ghost so_far = texts(opts.files@);
        opts.files.push(raw[k].clone());
        assert(texts(opts.files@) =~= so_far.push(args[k as int]));
        assert(texts(opts.files@) =~= before.files + args.subrange(from as int, k + 1));
    }
    assert(args.subrange(from as int, args.len() as int) =~= args.skip(from as int));
    opts
}

/// Reads one argument.
fn read_arg(raw: &Vec<String>, i: usize, opts: Options) -> (r: Outcome)
    requires
        i < raw@.len(),
    ensures
        r@ == arg_step(texts(raw@), i as int, opts@),
{
    let n: usize = raw.len();
    let arg: Vec<char> = chars_of(raw[i].as_str());
    let ghost args = texts(raw@);
    if spells(&arg, "--") {
        return Outcome::Stop(ArgResult::Ready(take_files(raw, i + 1, opts)));
    }
    if arg.len() >= 2 && arg[0] == '-' && arg[1] == '-' {
        return read_long(raw, i, &arg, opts);
    }
    if arg.len() > 1 && arg[0] == '-' {
        return read_short(raw, i, &arg, opts);
    }
    let mut opts = opts;
    let ghost files = texts(opts.files@);
    opts.files.push(raw[i].clone());
    assert(texts(opts.files@) =~= files.push(args[i as int]));
    Outcome::Next(opts, i + 1)
}

/// An argument leads to one after it.
proof fn lemma_step_forward(raw: Seq<Seq<char>>, i: int, s: Settings)
    requires
        0 <= i < raw.len(),
    ensures
        arg_step(raw, i, s) matches ArgStep::Next(_, next) ==> i < next <= raw.len(),
{
    reveal(long_step);
    reveal(valued_step);
    if raw[i].len() > 1 {
        lemma_short_forward(raw, i, s, 1);
    }
}

proof fn lemma_short_forward(raw: Seq<Seq<char>>, i: int, s: Settings, j: int)
    requires
        0 <= i < raw.len(),
        0 <= j <= raw[i].len(),
    ensures
        short_step(raw, i, s, j) matches ArgStep::Next(_, next) ==> i < next <= raw.len(),
    decreases raw[i].len() - j,
{
    reveal(valued_step);
    if j < raw[i].len() {
        if let Meaning::Flag(f) = short_meaning(raw[i][j]) {
            lemma_short_forward(raw, i, with_flag(s, f), j + 1);
        }
    }
}

/// Reads the arguments from number `from` on. Where a file of formats has to be read first, its
/// formats are added to the options, and reading goes on at the argument that is given.
pub fn parse_args_from(raw: &Vec<String>, from: usize, options: Options) -> (r: ArgResult)
    requires
        from <= raw@.len(),
    ensures
        r@ == parsed(texts(raw@), from as int, options@),
        options.wf() ==> match r {
            ArgResult::Ready(o) => o.wf(),
            ArgResult::ReadFile { options: o, next, .. } => o.wf() && from < next <= raw@.len(),
            _ => true,
        },
{
    let ghost args = texts(raw@);
    let ghost first = options@;
    proof {
        if options.wf() {
            lemma_args_valid(args, from as int, first);
        }
    }
    let mut opts = options;
    let mut i: usize = from;
    let n: usize = raw.len();
    while i < n
        invariant
            n == raw@.len(),
            i <= n,
            args == texts(raw@),
            first == options@,
            parsed(args, from as int, first) == parsed(args, i as int, opts@),
            options.wf() ==> match parsed(args, from as int, first) {
                Parsed::Ready(t) => t.wf(),
                Parsed::ReadFile { settings, next, .. } => settings.wf() && from < next
                    <= raw@.len(),
                _ => true,
            },
        decreases n - i,
    {
        proof {
            lemma_step_forward(args, i as int, opts@);
        }
        match read_arg(raw, i, opts) {
            Outcome::Stop(r) => {
                return r;
            },
            Outcome::Next(o, next) => {
                opts = o;
                i = next;
            },
        }
    }
    ArgResult::Ready(opts)
}

/// Adds the formats of a file: its lines that hold more than white space.
pub fn add_formats(options: Options, content: &str) -> (r: Options)
    ensures
        r@ == (Settings {
            formats: options@.formats + lines_from(content@, 0),
            ..options@
        }),
{
    let mut opts = options;
    let c: Vec<char> = chars_of(content);
    push_lines(&c, &mut opts.formats);
    opts
}

/// The message for a file of formats that cannot be read.
pub fn file_message(name: &str, long: bool, reason: &str) -> (r: String)
    ensures
        r@ == (if long {
            "cannot read format file "@
        } else {
            "cannot read "@
        }) + name@ + ": "@ + reason@,
{
    let mut r: String = String::new();
    if long {
        r.append("cannot read format file ");
    } else {
        r.append("cannot read ");
    }
    r.append(name);
    r.append(": ");
    r.append(reason);
    assert(r@ =~= (if long {
        "cannot read format file "@
    } else {
        "cannot read "@
    }) + name@ + ": "@ + reason@);
    r
}

/// Whatever the arguments are, the settings made of them are valid.
pub proof fn lemma_args_valid(raw: Seq<Seq<char>>, i: int, s: Settings)
    requires
        s.wf(),
        0 <= i <= raw.len(),
    ensures
        match parsed(raw, i, s) {
            Parsed::Ready(t) => t.wf(),
            Parsed::ReadFile { settings, next, .. } => settings.wf() && i < next <= raw.len(),
            _ => true,
        },
    decreases raw.len() - i,
{
    if i < raw.len() {
        lemma_step_valid(raw, i, s);
        if let ArgStep::Next(t, next) = arg_step(raw, i, s) {
            if i < next <= raw.len() {
                lemma_args_valid(raw, next, t);
            }
        }
    }
}

/// One argument keeps the settings valid.
proof fn lemma_step_valid(raw: Seq<Seq<char>>, i: int, s: Settings)
    requires
        s.wf(),
        0 <= i < raw.len(),
    ensures
        step_valid(raw, i, arg_step(raw, i, s)),
{
    let arg = raw[i];
    if arg == "--"@ {
    } else if arg.len() >= 2 && arg[0] == '-' && arg[1] == '-' {
        reveal(long_step);
        reveal(with_flag);
        let body = arg.skip(2);
        let eq = find_from(body, '=', 0);
        if let Meaning::Valued(w) = long_meaning(body.take(eq)) {
            if eq < body.len() {
                lemma_value_valid(raw, i, s, w, true, body.skip(eq + 1), i + 1);
            } else {
                let (v, next) = next_value(
                    raw,
                    i,
                    if w == Valued::Color {
                        "auto"@
                    } else {
                        ""@
                    },
                );
                lemma_value_valid(raw, i, s, w, true, v, next);
            }
        }
    } else if arg.len() > 1 && arg[0] == '-' {
        lemma_short_valid(raw, i, s, 1);
    }
}

/// The settings in what an argument does are valid.
spec fn step_valid(raw: Seq<Seq<char>>, i: int, step: ArgStep) -> bool {
    match step {
        ArgStep::Next(t, _) => t.wf(),
        ArgStep::Stop(Parsed::Ready(t)) => t.wf(),
        ArgStep::Stop(Parsed::ReadFile { settings, next, .. }) => settings.wf() && i < next
            <= raw.len(),
        ArgStep::Stop(_) => true,
    }
}

proof fn lemma_value_valid(
    raw: Seq<Seq<char>>,
    i: int,
    s: Settings,
    w: Valued,
    long: bool,
    v: Seq<char>,
    next: int,
)
    requires
        s.wf(),
        i < next <= raw.len(),
    ensures
        step_valid(raw, i, valued_step(s, w, long, v, next)),
{
    reveal(valued_step);
    reveal(setting_of);
    reveal(with_setting);
}

proof fn lemma_short_valid(raw: Seq<Seq<char>>, i: int, s: Settings, j: int)
    requires
        s.wf(),
        0 <= i < raw.len(),
        0 <= j <= raw[i].len(),
    ensures
        step_valid(raw, i, short_step(raw, i, s, j)),
    decreases raw[i].len() - j,
{
    let arg = raw[i];
    if j < arg.len() {
        match short_meaning(arg[j]) {
            Meaning::Flag(f) => {
                assert(with_flag(s, f).wf()) by {
                    reveal(with_flag);
                }
                lemma_short_valid(raw, i, with_flag(s, f), j + 1);
            },
            Meaning::Valued(w) => {
                if j + 1 < arg.len() {
                    lemma_value_valid(raw, i, s, w, false, arg.skip(j + 1), i + 1);
                } else if i + 1 < raw.len() {
                    lemma_value_valid(raw, i, s, w, false, raw[i + 1], i + 2);
                }
            },
            _ => {},
        }
    }
}

// ---------------------------------------------------------------- what follows from the settings

/// Is `c` a letter or a digit of any script, as `char::is_alphanumeric` tells?
pub uninterp spec fn alphanumeric(c: char) -> bool;

/// Is `c` a letter or a digit of ASCII?
pub open spec fn ascii_alphanumeric(c: char) -> bool {
    '0' <= c && c <= '9' || 'A' <= c && c <= 'Z' || 'a' <= c && c <= 'z'
}

/// Calls `char::is_alphanumeric`. Among the characters of ASCII it holds of letters and digits; of
/// the others the tables of Unicode decide.
#[verifier::external_body]
fn is_alphanumeric(c: char) -> (r: bool)
    ensures
        r == alphanumeric(c),
        (c as u32) < 0x80 ==> r == ascii_alphanumeric(c),
{
    c.is_alphanumeric()
}

/// The place of the last dot, or a negative number.
pub open spec fn last_dot(s: Seq<char>) -> int
    decreases s.len(),
{
    if s.len() == 0 {
        -1
    } else if s.last() == '.' {
        s.len() - 1
    } else {
        last_dot(s.drop_last())
    }
}

/// A file name without its extension: what stands before the last dot, unless that is the first
/// character.
pub open spec fn stem_of(name: Seq<char>) -> Seq<char> {
    if last_dot(name) <= 0 {
        name
    } else {
        name.take(last_dot(name))
    }
}

/// The place after the last slash.
pub open spec fn base_start(s: Seq<char>) -> int
    decreases s.len(),
{
    if s.len() == 0 {
        0
    } else if s.last() == '/' {
        s.len() as int
    } else {
        base_start(s.drop_last())
    }
}

/// The last part of a path: what stands after the last slash.
pub open spec fn base_name(path: Seq<char>) -> Seq<char> {
    path.skip(base_start(path))
}

/// Do slashes separate the parts of the path on every system? A backslash, a colon and two slashes
/// at the start mean something on some systems alone.
pub open spec fn is_portable(path: Seq<char>) -> bool {
    &&& !path.contains('\\') && !path.contains(':')
    &&& !(path.len() >= 2 && path[0] == '/' && path[1] == '/')
}

/// A path without slashes at its end, nor parts there that are a dot alone.
pub open spec fn stripped(path: Seq<char>) -> Seq<char>
    decreases path.len(),
{
    if path.len() == 0 {
        path
    } else if path.last() == '/' {
        stripped(path.drop_last())
    } else if path.len() >= 2 && path.last() == '.' && path[path.len() - 2] == '/' {
        stripped(path.drop_last())
    } else {
        path
    }
}

/// What `file_stem` returns of a path: of its last part, what stands before the extension. There
/// is nothing where the last part is `..`, or where there is none but the root.
pub open spec fn stem_fits(path: Seq<char>, stem: Option<Seq<char>>) -> bool {
    let short = stripped(path);
    let base = base_name(short);
    is_portable(path) && path.len() > 0 && short != "."@ ==> stem == if short.len() == 0 || base
        == ".."@ {
        None
    } else {
        Some(stem_of(base))
    }
}

/// Calls `Path::file_stem`. The last part of a path loses its extension; slashes and lone dots at
/// the end of the path do not count. Where the last part is `..`, or the path is the root, there
/// is no file name. Nothing is claimed of paths that systems take apart in different ways, of the
/// empty path and of a dot alone.
#[verifier::external_body]
fn file_stem(path: &str) -> (r: Option<String>)
    ensures
        stem_fits(path@, text_view(r)),
{
    std::path::Path::new(path).file_stem().and_then(|s| s.to_str()).map(|s| s.to_string())
}

/// A name for a C variable: what is no letter or digit becomes an underscore.
pub open spec fn identifier(s: Seq<char>) -> Seq<char> {
    Seq::new(
        s.len(),
        |i: int|
            if alphanumeric(s[i]) {
                s[i]
            } else {
                '_'
            },
    )
}

/// The characters of a text, where there is one.
pub open spec fn text_view(t: Option<String>) -> Option<Seq<char>> {
    match t {
        Some(s) => Some(s@),
        None => None,
    }
}

/// The settings with what follows from them. `stem` is the name of the first file without its
/// extension, and `no_color` tells whether colors are switched off by default.
pub open spec fn finished(s: Settings, stem: Option<Seq<char>>, no_color: bool) -> Settings {
    let wide = s.mode == DisplayMode::TwoByteHex || s.mode == DisplayMode::TwoByteOctal || s.mode
        == DisplayMode::TwoByteDecimal;
    Settings {
        reverse_jump: if s.mode == DisplayMode::Reverse {
            Some(s.jump)
        } else {
            s.reverse_jump
        },
        group: if s.group == 1 && wide {
            2
        } else {
            s.group
        },
        width: if s.mode == DisplayMode::Binary {
            8
        } else {
            s.width
        },
        include_name: if s.mode != DisplayMode::CInclude {
            s.include_name
        } else if s.files.len() == 0 {
            None
        } else {
            Some(
                identifier(
                    match stem {
                        Some(t) => t,
                        None => "data"@,
                    },
                ),
            )
        },
        color: if s.color == ColorWhen::Auto && no_color {
            ColorWhen::Never
        } else {
            s.color
        },
        ..s
    }
}

/// What follows from valid settings is valid.
pub proof fn lemma_finished_valid(s: Settings, stem: Option<Seq<char>>, no_color: bool)
    requires
        s.wf(),
    ensures
        finished(s, stem, no_color).wf(),
{
}

/// A name for a C variable.
fn make_identifier(s: &[char]) -> (r: String)
    ensures
        r@ == identifier(s@),
{
    let mut r: String = String::new();
    for i in 0..s.len()
        invariant
            r@ == identifier(s@).take(i as int),
    {
        let c: char = s[i];
        if is_alphanumeric(c) {
            r.push(c);
        } else {
            r.push('_');
        }
        assert(r@ =~= identifier(s@).take(i + 1));
    }
    assert(r@ =~= identifier(s@));
    r
}

/// Adds what follows from the settings, given the name of the first file without its extension.
pub fn finish_with(options: Options, stem: Option<String>, no_color: bool) -> (r: Options)
    ensures
        r@ == finished(options@, text_view(stem), no_color),
{
    let mode: DisplayMode = options.mode;
    let wide: bool = match mode {
        DisplayMode::TwoByteHex | DisplayMode::TwoByteOctal | DisplayMode::TwoByteDecimal => true,
        _ => false,
    };
    let reverse_jump: Option<i64> = if mode == DisplayMode::Reverse {
        Some(options.jump)
    } else {
        options.reverse_jump
    };
    let group: usize = if options.group == 1 && wide {
        2
    } else {
        options.group
    };
    let width: usize = if mode == DisplayMode::Binary {
        8
    } else {
        options.width
    };
    let color: ColorWhen = if options.color == ColorWhen::Auto && no_color {
        ColorWhen::Never
    } else {
        options.color
    };
    let mut opts = options;
    opts.reverse_jump = reverse_jump;
    opts.group = group;
    opts.width = width;
    opts.color = color;
    if mode == DisplayMode::CInclude {
        opts.include_name = variable_name(opts.files.len() > 0, stem);
    }
    opts
}

/// The name of the variable in C output, where there is a file.
fn variable_name(named: bool, stem: Option<String>) -> (r: Option<String>)
    ensures
        text_view(r) == if named {
            Some(
                identifier(
                    match text_view(stem) {
                        Some(t) => t,
                        None => "data"@,
                    },
                ),
            )
        } else {
            None
        },
{
    if !named {
        return None;
    }
    let name: Vec<char> = match stem {
        Some(t) => chars_of(t.as_str()),
        None => chars_of("data"),
    };
    Some(make_identifier(&name))
}

/// Adds what follows from the settings. `no_color` tells whether colors are switched off by
/// default.
pub fn finish_args(options: Options, no_color: bool) -> (r: Options)
    ensures
        exists|stem: Option<Seq<char>>|
            r@ == #[trigger] finished(options@, stem, no_color) && (options@.files.len() > 0
                ==> stem_fits(options@.files[0], stem)),
        options.wf() ==> r.wf(),
{
    let stem: Option<String> = if options.files.len() > 0 {
        file_stem(options.files[0].as_str())
    } else {
        None
    };
    let ghost model = text_view(stem);
    let r = finish_with(options, stem, no_color);
    assert(r@ == finished(options@, model, no_color));
    r
}

/// The arguments that a text of default options and the command line give together.
pub fn all_args(defaults: Option<&str>, argv: Vec<String>) -> (r: Vec<String>)
    ensures
        texts(r@) == (match defaults {
            Some(d) => words_from(d@, 0),
            None => seq![],
        }) + texts(argv@),
{
    let mut r: Vec<String> = match defaults {
        Some(d) => split_words(d),
        None => Vec::new(),
    };
    let ghost words = match defaults {
        Some(d) => words_from(d@, 0),
        None => seq![],
    };
    assert(texts(r@) =~= words + texts(argv@).take(0));
    for i in 0..argv.len()
        invariant
            texts(r@) == words + texts(argv@).take(i as int),
    {
        let ghost so_far = texts(r@);
        r.push(argv[i].clone());
        assert(texts(r@) =~= so_far.push(argv@[i as int]@));
        assert(texts(r@) =~= words + texts(argv@).take(i + 1));
    }
    assert(texts(argv@).take(argv@.len() as int) =~= texts(argv@));
    r
}

// ---------------------------------------------------------------- short and long options

/// The options that have a short and a long name.
pub open spec fn option_pairs() -> Seq<(char, Seq<char>)> {
    seq![
        ('h', "help"@),
        ('v', "version"@),
        ('x', "hex"@),
        ('X', "hex-wide"@),
        ('o', "octal"@),
        ('O', "octal-wide"@),
        ('d', "decimal"@),
        ('D', "decimal-wide"@),
        ('c', "chars"@),
        ('b', "binary"@),
        ('p', "plain"@),
        ('i', "include"@),
        ('r', "reverse"@),
        ('A', "no-ascii"@),
        ('P', "no-position"@),
        ('u', "uppercase"@),
        ('w', "squeeze"@),
        ('q', "quiet"@),
        ('W', "width"@),
        ('g', "group"@),
        ('E', "endian"@),
        ('B', "border"@),
        ('s', "skip"@),
        ('n', "length"@),
        ('j', "jump"@),
        ('L', "color"@),
        ('S', "scheme"@),
        ('T', "table"@),
        ('m', "max-lines"@),
        ('F', "format"@),
        ('f', "format-file"@),
    ]
}

/// A short option, as it is given.
pub open spec fn short_arg(c: char) -> Seq<char> {
    seq!['-', c]
}

/// A long option, as it is given.
pub open spec fn long_arg(key: Seq<char>) -> Seq<char> {
    seq!['-', '-'] + key
}

/// Do two command lines lead to the same settings, or do both lead to an error?
pub open spec fn alike(a: Parsed, b: Parsed) -> bool {
    match (a, b) {
        (Parsed::Ready(s), Parsed::Ready(t)) => s == t,
        (Parsed::Help, Parsed::Help) => true,
        (Parsed::Version, Parsed::Version) => true,
        (
            Parsed::ReadFile { name: n1, settings: s1, .. },
            Parsed::ReadFile { name: n2, settings: s2, .. },
        ) => n1 == n2 && s1 == s2,
        (Parsed::Invalid(_), Parsed::Invalid(_)) => true,
        _ => false,
    }
}

/// The length and the ends of a name, by which those of long options differ.
spec fn mark(key: Seq<char>) -> (nat, char, char) {
    (key.len(), key[0], key.last())
}

/// Can the text be the name of a long option?
pub open spec fn named(key: Seq<char>) -> bool {
    key.len() > 0 && forall|k: int| 0 <= k < key.len() ==> #[trigger] key[k] != '='
}

/// The names of long options are different, and hold no equals sign.
#[verifier::spinoff_prover]
#[verifier::rlimit(100)]
pub proof fn lemma_long_meanings()
    ensures
        long_meaning("help"@) == Meaning::Help,
        long_meaning("version"@) == Meaning::Version,
        long_meaning("hex"@) == Meaning::Flag(Flag::Mode(DisplayMode::OneByteHex)),
        long_meaning("hex-wide"@) == Meaning::Flag(Flag::Mode(DisplayMode::TwoByteHex)),
        long_meaning("octal"@) == Meaning::Flag(Flag::Mode(DisplayMode::OneByteOctal)),
        long_meaning("octal-wide"@) == Meaning::Flag(Flag::Mode(DisplayMode::TwoByteOctal)),
        long_meaning("decimal"@) == Meaning::Flag(Flag::Mode(DisplayMode::OneByteDecimal)),
        long_meaning("decimal-wide"@) == Meaning::Flag(Flag::Mode(DisplayMode::TwoByteDecimal)),
        long_meaning("chars"@) == Meaning::Flag(Flag::Mode(DisplayMode::OneByteChar)),
        long_meaning("binary"@) == Meaning::Flag(Flag::Mode(DisplayMode::Binary)),
        long_meaning("plain"@) == Meaning::Flag(Flag::Mode(DisplayMode::Plain)),
        long_meaning("include"@) == Meaning::Flag(Flag::Mode(DisplayMode::CInclude)),
        long_meaning("reverse"@) == Meaning::Flag(Flag::Mode(DisplayMode::Reverse)),
        long_meaning("no-ascii"@) == Meaning::Flag(Flag::NoAscii),
        long_meaning("no-position"@) == Meaning::Flag(Flag::NoPosition),
        long_meaning("uppercase"@) == Meaning::Flag(Flag::Uppercase),
        long_meaning("minimal"@) == Meaning::Flag(Flag::Minimal),
        long_meaning("offset-dec"@) == Meaning::Flag(Flag::OffsetDec),
        long_meaning("squeeze"@) == Meaning::Flag(Flag::Squeeze),
        long_meaning("quiet"@) == Meaning::Flag(Flag::Quiet),
        long_meaning("width"@) == Meaning::Valued(Valued::Width),
        long_meaning("group"@) == Meaning::Valued(Valued::Group),
        long_meaning("endian"@) == Meaning::Valued(Valued::Endian),
        long_meaning("border"@) == Meaning::Valued(Valued::Border),
        long_meaning("skip"@) == Meaning::Valued(Valued::Skip),
        long_meaning("length"@) == Meaning::Valued(Valued::Length),
        long_meaning("jump"@) == Meaning::Valued(Valued::Jump),
        long_meaning("color"@) == Meaning::Valued(Valued::Color),
        long_meaning("scheme"@) == Meaning::Valued(Valued::Scheme),
        long_meaning("table"@) == Meaning::Valued(Valued::Table),
        long_meaning("max-lines"@) == Meaning::Valued(Valued::MaxLines),
        long_meaning("format"@) == Meaning::Valued(Valued::Format),
        long_meaning("format-file"@) == Meaning::Valued(Valued::FormatFile),
        named("help"@),
        named("version"@),
        named("hex"@),
        named("hex-wide"@),
        named("octal"@),
        named("octal-wide"@),
        named("decimal"@),
        named("decimal-wide"@),
        named("chars"@),
        named("binary"@),
        named("plain"@),
        named("include"@),
        named("reverse"@),
        named("no-ascii"@),
        named("no-position"@),
        named("uppercase"@),
        named("squeeze"@),
        named("quiet"@),
        named("width"@),
        named("group"@),
        named("endian"@),
        named("border"@),
        named("skip"@),
        named("length"@),
        named("jump"@),
        named("color"@),
        named("scheme"@),
        named("table"@),
        named("max-lines"@),
        named("format"@),
        named("format-file"@),
{
    reveal(long_meaning);
    reveal_strlit("help");
    reveal_strlit("version");
    reveal_strlit("hex");
    reveal_strlit("hex-wide");
    reveal_strlit("octal");
    reveal_strlit("octal-wide");
    reveal_strlit("decimal");
    reveal_strlit("decimal-wide");
    reveal_strlit("chars");
    reveal_strlit("binary");
    reveal_strlit("plain");
    reveal_strlit("include");
    reveal_strlit("reverse");
    reveal_strlit("no-ascii");
    reveal_strlit("minimal");
    reveal_strlit("no-position");
    reveal_strlit("uppercase");
    reveal_strlit("offset-dec");
    reveal_strlit("squeeze");
    reveal_strlit("quiet");
    reveal_strlit("width");
    reveal_strlit("group");
    reveal_strlit("endian");
    reveal_strlit("border");
    reveal_strlit("skip");
    reveal_strlit("length");
    reveal_strlit("jump");
    reveal_strlit("color");
    reveal_strlit("scheme");
    reveal_strlit("table");
    reveal_strlit("max-lines");
    reveal_strlit("format");
    reveal_strlit("format-file");
    assert(mark("help"@) == (4nat, 'h', 'p'));
    assert(mark("version"@) == (7nat, 'v', 'n'));
    assert(mark("hex"@) == (3nat, 'h', 'x'));
    assert(mark("hex-wide"@) == (8nat, 'h', 'e'));
    assert(mark("octal"@) == (5nat, 'o', 'l'));
    assert(mark("octal-wide"@) == (10nat, 'o', 'e'));
    assert(mark("decimal"@) == (7nat, 'd', 'l'));
    assert(mark("decimal-wide"@) == (12nat, 'd', 'e'));
    assert(mark("chars"@) == (5nat, 'c', 's'));
    assert(mark("binary"@) == (6nat, 'b', 'y'));
    assert(mark("plain"@) == (5nat, 'p', 'n'));
    assert(mark("include"@) == (7nat, 'i', 'e'));
    assert(mark("reverse"@) == (7nat, 'r', 'e'));
    assert(mark("no-ascii"@) == (8nat, 'n', 'i'));
    assert(mark("minimal"@) == (7nat, 'm', 'l'));
    assert(mark("no-position"@) == (11nat, 'n', 'n'));
    assert(mark("uppercase"@) == (9nat, 'u', 'e'));
    assert(mark("offset-dec"@) == (10nat, 'o', 'c'));
    assert(mark("squeeze"@) == (7nat, 's', 'e'));
    assert(mark("quiet"@) == (5nat, 'q', 't'));
    assert(mark("width"@) == (5nat, 'w', 'h'));
    assert(mark("group"@) == (5nat, 'g', 'p'));
    assert(mark("endian"@) == (6nat, 'e', 'n'));
    assert(mark("border"@) == (6nat, 'b', 'r'));
    assert(mark("skip"@) == (4nat, 's', 'p'));
    assert(mark("length"@) == (6nat, 'l', 'h'));
    assert(mark("jump"@) == (4nat, 'j', 'p'));
    assert(mark("color"@) == (5nat, 'c', 'r'));
    assert(mark("scheme"@) == (6nat, 's', 'e'));
    assert(mark("table"@) == (5nat, 't', 'e'));
    assert(mark("max-lines"@) == (9nat, 'm', 's'));
    assert(mark("format"@) == (6nat, 'f', 't'));
    assert(mark("format-file"@) == (11nat, 'f', 'e'));
}

/// What the names of an option mean.
#[verifier::spinoff_prover]
#[verifier::rlimit(100)]
proof fn lemma_pair_meaning(i: int)
    requires
        0 <= i < option_pairs().len(),
    ensures
        ({
            let (c, key) = option_pairs()[i];
            &&& short_meaning(c) == long_meaning(key)
            &&& short_meaning(c) != Meaning::Unknown
            &&& c != '-'
            &&& named(key)
        }),
{
    reveal(short_meaning);
    lemma_long_meanings();
    let pairs = option_pairs();
    assert(pairs[0] == ('h', "help"@));
    assert(pairs[1] == ('v', "version"@));
    assert(pairs[2] == ('x', "hex"@));
    assert(pairs[3] == ('X', "hex-wide"@));
    assert(pairs[4] == ('o', "octal"@));
    assert(pairs[5] == ('O', "octal-wide"@));
    assert(pairs[6] == ('d', "decimal"@));
    assert(pairs[7] == ('D', "decimal-wide"@));
    assert(pairs[8] == ('c', "chars"@));
    assert(pairs[9] == ('b', "binary"@));
    assert(pairs[10] == ('p', "plain"@));
    assert(pairs[11] == ('i', "include"@));
    assert(pairs[12] == ('r', "reverse"@));
    assert(pairs[13] == ('A', "no-ascii"@));
    assert(pairs[14] == ('P', "no-position"@));
    assert(pairs[15] == ('u', "uppercase"@));
    assert(pairs[16] == ('w', "squeeze"@));
    assert(pairs[17] == ('q', "quiet"@));
    assert(pairs[18] == ('W', "width"@));
    assert(pairs[19] == ('g', "group"@));
    assert(pairs[20] == ('E', "endian"@));
    assert(pairs[21] == ('B', "border"@));
    assert(pairs[22] == ('s', "skip"@));
    assert(pairs[23] == ('n', "length"@));
    assert(pairs[24] == ('j', "jump"@));
    assert(pairs[25] == ('L', "color"@));
    assert(pairs[26] == ('S', "scheme"@));
    assert(pairs[27] == ('T', "table"@));
    assert(pairs[28] == ('m', "max-lines"@));
    assert(pairs[29] == ('F', "format"@));
    assert(pairs[30] == ('f', "format-file"@));
}

/// The place of the equals sign after a name, or the end.
pub proof fn lemma_name_end(key: Seq<char>, rest: Seq<char>, pos: int)
    requires
        named(key),
        0 <= pos <= key.len(),
        rest.len() > 0 ==> rest[0] == '=',
    ensures
        find_from(key + rest, '=', pos) == key.len(),
    decreases key.len() - pos,
{
    if pos < key.len() {
        assert((key + rest)[pos] == key[pos]);
        lemma_name_end(key, rest, pos + 1);
    }
}

/// What an option does with its value does not depend on which name it was given by, but for the
/// words of an error.
proof fn lemma_valued_alike(s: Settings, w: Valued, v: Seq<char>, n1: int, n2: int)
    ensures
        match (valued_step(s, w, true, v, n1), valued_step(s, w, false, v, n2)) {
            (ArgStep::Next(a, k1), ArgStep::Next(b, k2)) => a == b && k1 == n1 && k2 == n2,
            (ArgStep::Stop(a), ArgStep::Stop(b)) => alike(a, b),
            _ => false,
        },
        match valued_step(s, w, true, v, n1) {
            ArgStep::Next(_, k1) => k1 == n1,
            ArgStep::Stop(a) => true,
        },
{
    reveal(valued_step);
    reveal(setting_of);
    reveal(border_style);
}

/// A short option and its long form do the same where neither has a value.
pub proof fn lemma_short_long_flag(i: int, s: Settings)
    requires
        0 <= i < option_pairs().len(),
        !(short_meaning(option_pairs()[i].0) is Valued),
    ensures
        ({
            let (c, key) = option_pairs()[i];
            alike(parsed(seq![short_arg(c)], 0, s), parsed(seq![long_arg(key)], 0, s))
        }),
{
    let (c, key) = option_pairs()[i];
    lemma_pair_meaning(i);
    reveal_strlit("--");
    let short = seq![short_arg(c)];
    let long = seq![long_arg(key)];
    let none = Seq::<char>::empty();
    lemma_name_end(key, none, 0);
    assert(long_arg(key).skip(2) =~= key);
    assert(key + none =~= key);
    assert(key.take(key.len() as int) =~= key);
    assert("--"@.len() == 2);
    assert(long[0].len() == key.len() + 2);
    reveal(long_step);
    reveal_with_fuel(parsed, 3);
    reveal_with_fuel(short_step, 3);
    assert(short[0][0] == '-' && short[0][1] == c);
    assert("--"@[1] == '-');
    assert(short[0] != "--"@);
    assert(long[0][0] == '-' && long[0][1] == '-');
}

/// What the four ways to give an option a value do.
proof fn lemma_value_forms(i: int, s: Settings, v: Seq<char>, w: Valued)
    requires
        0 <= i < option_pairs().len(),
        short_meaning(option_pairs()[i].0) == Meaning::Valued(w),
        v.len() > 0,
    ensures
        ({
            let (c, key) = option_pairs()[i];
            &&& arg_step(seq![short_arg(c), v], 0, s) == valued_step(s, w, false, v, 2)
            &&& arg_step(seq![short_arg(c) + v], 0, s) == valued_step(s, w, false, v, 1)
            &&& arg_step(seq![long_arg(key), v], 0, s) == valued_step(s, w, true, v, 2)
            &&& arg_step(seq![long_arg(key) + seq!['='] + v], 0, s) == valued_step(
                s,
                w,
                true,
                v,
                1,
            )
        }),
{
    let (c, key) = option_pairs()[i];
    lemma_pair_meaning(i);
    reveal_strlit("--");
    assert("--"@.len() == 2 && "--"@[1] == '-');
    reveal(long_step);
    let none = Seq::<char>::empty();
    let given = seq!['='] + v;
    lemma_name_end(key, none, 0);
    lemma_name_end(key, given, 0);
    let a = short_arg(c);
    let b = short_arg(c) + v;
    let d = long_arg(key);
    let e = long_arg(key) + seq!['='] + v;
    assert(a[0] == '-' && a[1] == c && a.len() == 2);
    assert(b[0] == '-' && b[1] == c && b.len() == v.len() + 2);
    assert(b.skip(2) =~= v);
    assert(d[0] == '-' && d[1] == '-' && d.len() == key.len() + 2);
    assert(e[0] == '-' && e[1] == '-' && e.len() == key.len() + v.len() + 3);
    assert(d.skip(2) =~= key + none);
    assert((key + none).take(key.len() as int) =~= key);
    assert(e.skip(2) =~= key + given);
    assert((key + given).take(key.len() as int) =~= key);
    assert((key + given).skip(key.len() as int + 1) =~= v);
    assert(seq![a, v][0] == a && seq![b][0] == b && seq![d, v][0] == d && seq![e][0] == e);
    assert(seq![a, v][1] == v && seq![d, v][1] == v);
    assert(a != "--"@ && b != "--"@ && d != "--"@ && e != "--"@);
    reveal_with_fuel(short_step, 2);
}

/// A short option and its long form do the same with a value, whichever of the four ways it is
/// given in.
pub proof fn lemma_short_long_value(i: int, s: Settings, v: Seq<char>)
    requires
        0 <= i < option_pairs().len(),
        short_meaning(option_pairs()[i].0) is Valued,
        v.len() > 0,
    ensures
        ({
            let (c, key) = option_pairs()[i];
            let apart = parsed(seq![short_arg(c), v], 0, s);
            &&& alike(apart, parsed(seq![short_arg(c) + v], 0, s))
            &&& alike(apart, parsed(seq![long_arg(key), v], 0, s))
            &&& alike(apart, parsed(seq![long_arg(key) + seq!['='] + v], 0, s))
        }),
{
    let (c, key) = option_pairs()[i];
    let w = short_meaning(c)->Valued_0;
    lemma_value_forms(i, s, v, w);
    lemma_valued_alike(s, w, v, 1, 1);
    lemma_valued_alike(s, w, v, 1, 2);
    lemma_valued_alike(s, w, v, 2, 1);
    lemma_valued_alike(s, w, v, 2, 2);
    reveal_with_fuel(parsed, 2);
}

} // verus!
