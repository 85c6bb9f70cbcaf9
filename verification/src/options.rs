//! The settings a dump is made with.

use crate::text::texts;
use vstd::prelude::*;

verus! {

/// What is shown for each byte or group of bytes.
#[derive(Clone, Copy, PartialEq, Eq, Debug, Structural)]
pub enum DisplayMode {
    Canonical,
    OneByteHex,
    TwoByteHex,
    OneByteOctal,
    TwoByteOctal,
    OneByteDecimal,
    TwoByteDecimal,
    OneByteChar,
    Binary,
    Plain,
    CInclude,
    Reverse,
}

/// The lines drawn round a dump.
#[derive(Clone, Copy, PartialEq, Eq, Debug, Structural)]
pub enum BorderStyle {
    Off,
    Ascii,
    Unicode,
}

/// When colors are used.
#[derive(Clone, Copy, PartialEq, Eq, Debug, Structural)]
pub enum ColorWhen {
    Auto,
    Always,
    Never,
}

/// How byte values map to colors.
#[derive(Clone, Copy, PartialEq, Eq, Debug, Structural)]
pub enum ColorScheme {
    Default,
    Type,
    Gradient,
}

/// The characters of the panel at the right of a row.
#[derive(Clone, Copy, PartialEq, Eq, Debug, Structural)]
pub enum CharTable {
    Ascii,
    Default,
    Braille,
    Cp437,
    Ebcdic,
}

/// The byte order within a group.
#[derive(Clone, Copy, PartialEq, Eq, Debug, Structural)]
pub enum Endian {
    Big,
    Little,
}

/// All settings.
#[derive(Clone, Debug)]
pub struct Options {
    pub mode: DisplayMode,
    /// Bytes per row.
    pub width: usize,
    /// Bytes per group: 1, 2, 4 or 8.
    pub group: usize,
    pub endian: Endian,
    pub border: BorderStyle,
    pub no_ascii: bool,
    pub minimal: bool,
    pub no_position: bool,
    /// Bytes to skip; a negative count is taken from the end.
    pub skip: i64,
    pub length: Option<u64>,
    /// What is added to every displayed offset.
    pub jump: i64,
    pub uppercase: bool,
    pub offset_dec: bool,
    pub color: ColorWhen,
    pub scheme: ColorScheme,
    pub table: CharTable,
    pub squeeze: bool,
    pub max_lines: Option<u64>,
    pub quiet: bool,
    /// Custom format strings.
    pub formats: Vec<String>,
    /// Input files; `-` is standard input.
    pub files: Vec<String>,
    /// Where output starts when a dump is converted back.
    pub reverse_jump: Option<i64>,
    /// The name of the variable in C output.
    pub include_name: Option<String>,
}

/// The settings, with texts as sequences of characters.
pub struct Settings {
    pub mode: DisplayMode,
    pub width: usize,
    pub group: usize,
    pub endian: Endian,
    pub border: BorderStyle,
    pub no_ascii: bool,
    pub minimal: bool,
    pub no_position: bool,
    pub skip: i64,
    pub length: Option<u64>,
    pub jump: i64,
    pub uppercase: bool,
    pub offset_dec: bool,
    pub color: ColorWhen,
    pub scheme: ColorScheme,
    pub table: CharTable,
    pub squeeze: bool,
    pub max_lines: Option<u64>,
    pub quiet: bool,
    pub formats: Seq<Seq<char>>,
    pub files: Seq<Seq<char>>,
    pub reverse_jump: Option<i64>,
    pub include_name: Option<Seq<char>>,
}

impl Settings {
    /// A row holds at least one byte, and groups have one of the four sizes.
    pub open spec fn wf(self) -> bool {
        &&& self.width > 0
        &&& self.group == 1 || self.group == 2 || self.group == 4 || self.group == 8
    }
}

impl View for Options {
    type V = Settings;

    open spec fn view(&self) -> Settings {
        Settings {
            mode: self.mode,
            width: self.width,
            group: self.group,
            endian: self.endian,
            border: self.border,
            no_ascii: self.no_ascii,
            minimal: self.minimal,
            no_position: self.no_position,
            skip: self.skip,
            length: self.length,
            jump: self.jump,
            uppercase: self.uppercase,
            offset_dec: self.offset_dec,
            color: self.color,
            scheme: self.scheme,
            table: self.table,
            squeeze: self.squeeze,
            max_lines: self.max_lines,
            quiet: self.quiet,
            formats: texts(self.formats@),
            files: texts(self.files@),
            reverse_jump: self.reverse_jump,
            include_name: match self.include_name {
                Some(name) => Some(name@),
                None => None,
            },
        }
    }
}

impl Options {
    /// A row holds at least one byte, and groups have one of the four sizes.
    pub open spec fn wf(self) -> bool {
        self@.wf()
    }

    /// The width of a full row of text can be counted in a `usize`.
    pub open spec fn fits(self) -> bool {
        self.width * 4 < usize::MAX
    }
}

impl Default for Options {
    fn default() -> (r: Self)
        ensures
            r.wf(),
            r.mode == DisplayMode::Canonical,
            r.width == 16,
            r.group == 1,
            r.endian == Endian::Big,
            r.border == BorderStyle::Off,
            !r.no_ascii,
            !r.minimal,
            !r.no_position,
            r.skip == 0,
            r.length is None,
            r.jump == 0,
            !r.uppercase,
            !r.offset_dec,
            r.color == ColorWhen::Auto,
            r.scheme == ColorScheme::Default,
            r.table == CharTable::Ascii,
            !r.squeeze,
            r.max_lines is None,
            !r.quiet,
            r.formats@.len() == 0,
            r.files@.len() == 0,
            r.reverse_jump is None,
            r.include_name is None,
    {
        Options {
            mode: DisplayMode::Canonical,
            width: 16,
            group: 1,
            endian: Endian::Big,
            border: BorderStyle::Off,
            no_ascii: false,
            minimal: false,
            no_position: false,
            skip: 0,
            length: None,
            jump: 0,
            uppercase: false,
            offset_dec: false,
            color: ColorWhen::Auto,
            scheme: ColorScheme::Default,
            table: CharTable::Ascii,
            squeeze: false,
            max_lines: None,
            quiet: false,
            formats: Vec::new(),
            files: Vec::new(),
            reverse_jump: None,
            include_name: None,
        }
    }
}

} // verus!
