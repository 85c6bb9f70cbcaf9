//! The help page.

use clihelp::{HelpPage, Row, Section};
use crate::size::fixed;
use vstd::prelude::*;

verus! {

/// A line on an option: its short and long names, the name of its value, and what it does.
pub struct HelpRow {
    pub short: &'static str,
    pub long: &'static str,
    pub placeholder: Option<&'static str>,
    pub desc: &'static str,
}

/// A group of lines under a title.
pub struct HelpSection {
    pub title: &'static str,
    pub note: Option<&'static str>,
    pub rows: Vec<HelpRow>,
}

/// The characters of a text, where there is one.
pub open spec fn maybe(s: Option<&'static str>) -> Option<Seq<char>> {
    match s {
        Some(t) => Some(t@),
        None => None,
    }
}

/// A line, with texts as sequences of characters.
pub open spec fn row_view(r: HelpRow) -> (Seq<char>, Seq<char>, Option<Seq<char>>, Seq<char>) {
    (r.short@, r.long@, maybe(r.placeholder), r.desc@)
}

/// Some lines, with texts as sequences of characters.
pub open spec fn row_views(v: Seq<HelpRow>) -> Seq<
    (Seq<char>, Seq<char>, Option<Seq<char>>, Seq<char>),
> {
    Seq::new(v.len(), |i: int| row_view(v[i]))
}

/// A group, with texts as sequences of characters.
pub open spec fn section_view(s: HelpSection) -> (
    Seq<char>,
    Option<Seq<char>>,
    Seq<(Seq<char>, Seq<char>, Option<Seq<char>>, Seq<char>)>,
) {
    (s.title@, maybe(s.note), row_views(s.rows@))
}

/// Some groups, with texts as sequences of characters.
pub open spec fn section_views(v: Seq<HelpSection>) -> Seq<
    (
        Seq<char>,
        Option<Seq<char>>,
        Seq<(Seq<char>, Seq<char>, Option<Seq<char>>, Seq<char>)>,
    ),
> {
    Seq::new(v.len(), |i: int| section_view(v[i]))
}

/// A line on an option without a value.
pub open spec fn line(short: Seq<char>, long: Seq<char>, desc: Seq<char>) -> (
    Seq<char>,
    Seq<char>,
    Option<Seq<char>>,
    Seq<char>,
) {
    (short, long, None, desc)
}

/// A line on an option with a value.
pub open spec fn value_line(
    short: Seq<char>,
    long: Seq<char>,
    placeholder: Seq<char>,
    desc: Seq<char>,
) -> (Seq<char>, Seq<char>, Option<Seq<char>>, Seq<char>) {
    (short, long, Some(placeholder), desc)
}

/// A line on an option without a value.
pub fn row(short: &'static str, long: &'static str, desc: &'static str) -> (r: HelpRow)
    ensures
        row_view(r) == line(short@, long@, desc@),
{
    HelpRow { short, long, placeholder: None, desc }
}

/// A line on an option with a value.
pub fn row_val(
    short: &'static str,
    long: &'static str,
    placeholder: &'static str,
    desc: &'static str,
) -> (r: HelpRow)
    ensures
        row_view(r) == value_line(short@, long@, placeholder@, desc@),
{
    HelpRow { short, long, placeholder: Some(placeholder), desc }
}

/// The lines on display modes.
pub open spec fn output_format_table() -> Seq<
    (Seq<char>, Seq<char>, Option<Seq<char>>, Seq<char>),
> {
    seq![
        line(""@, "(default)"@, "canonical hex + ASCII display"@),
        line("-x"@, "--hex"@, "one-byte hexadecimal display"@),
        line("-X"@, "--hex-wide"@, "two-byte hexadecimal display"@),
        line("-o"@, "--octal"@, "one-byte octal display"@),
        line("-O"@, "--octal-wide"@, "two-byte octal display"@),
        line("-d"@, "--decimal"@, "one-byte decimal display"@),
        line("-D"@, "--decimal-wide"@, "two-byte decimal display"@),
        line("-c"@, "--chars"@, "one-byte character display"@),
        line("-b"@, "--binary"@, "binary display (8 bits per byte)"@),
        line("-p"@, "--plain"@, "plain hex string, no offset or ASCII"@),
        line("-i"@, "--include"@, "C include file style output"@),
        line("-r"@, "--reverse"@, "convert hex dump back to binary"@),
    ]
}

/// The lines on display modes.
pub fn output_format_rows() -> (r: Vec<HelpRow>)
    ensures
        row_views(r@) == output_format_table(),
{
    let mut r: Vec<HelpRow> = Vec::new();
    r.push(row("", "(default)", "canonical hex + ASCII display"));
    r.push(row("-x", "--hex", "one-byte hexadecimal display"));
    r.push(row("-X", "--hex-wide", "two-byte hexadecimal display"));
    r.push(row("-o", "--octal", "one-byte octal display"));
    r.push(row("-O", "--octal-wide", "two-byte octal display"));
    r.push(row("-d", "--decimal", "one-byte decimal display"));
    r.push(row("-D", "--decimal-wide", "two-byte decimal display"));
    r.push(row("-c", "--chars", "one-byte character display"));
    r.push(row("-b", "--binary", "binary display (8 bits per byte)"));
    r.push(row("-p", "--plain", "plain hex string, no offset or ASCII"));
    r.push(row("-i", "--include", "C include file style output"));
    r.push(row("-r", "--reverse", "convert hex dump back to binary"));
    assert(row_views(r@) =~= output_format_table());
    r
}

/// The lines on layout.
pub open spec fn layout_table() -> Seq<
    (Seq<char>, Seq<char>, Option<Seq<char>>, Seq<char>),
> {
    seq![
        value_line("-W"@, "--width"@, "<N>"@, "bytes per row (default: 16)"@),
        value_line("-g"@, "--group"@, "<N>"@, "bytes per group: 1, 2, 4, 8"@),
        value_line("-E"@, "--endian"@, "<MODE>"@, "big | little  (default: big)"@),
        value_line("-B"@, "--border"@, "<STYLE>"@, "none | ascii | unicode  (default: none)"@),
        line("-A"@, "--no-ascii"@, "hide the ASCII panel"@),
        line("-P"@, "--no-position"@, "hide the offset/position column"@),
        line(""@, "--minimal"@, "compact rows: offset + hex + ascii, no separators"@),
    ]
}

/// The lines on layout.
pub fn layout_rows() -> (r: Vec<HelpRow>)
    ensures
        row_views(r@) == layout_table(),
{
    let mut r: Vec<HelpRow> = Vec::new();
    r.push(row_val("-W", "--width", "<N>", "bytes per row (default: 16)"));
    r.push(row_val("-g", "--group", "<N>", "bytes per group: 1, 2, 4, 8"));
    r.push(row_val("-E", "--endian", "<MODE>", "big | little  (default: big)"));
    r.push(row_val("-B", "--border", "<STYLE>", "none | ascii | unicode  (default: none)"));
    r.push(row("-A", "--no-ascii", "hide the ASCII panel"));
    r.push(row("-P", "--no-position", "hide the offset/position column"));
    r.push(row("", "--minimal", "compact rows: offset + hex + ascii, no separators"));
    assert(row_views(r@) =~= layout_table());
    r
}

/// The lines on offsets and navigation.
pub open spec fn offset_nav_table() -> Seq<
    (Seq<char>, Seq<char>, Option<Seq<char>>, Seq<char>),
> {
    seq![
        value_line("-s"@, "--skip"@, "<N>"@, "skip first N bytes (negative = from end)"@),
        value_line("-n"@, "--length"@, "<N>"@, "read only N bytes"@),
        value_line("-j"@, "--jump"@, "<N>"@, "bias added to every displayed offset"@),
        line("-u"@, "--uppercase"@, "uppercase hex digits (A-F)"@),
        line(""@, "--offset-dec"@, "show offsets in decimal"@),
    ]
}

/// The lines on offsets and navigation.
pub fn offset_nav_rows() -> (r: Vec<HelpRow>)
    ensures
        row_views(r@) == offset_nav_table(),
{
    let mut r: Vec<HelpRow> = Vec::new();
    r.push(row_val("-s", "--skip", "<N>", "skip first N bytes (negative = from end)"));
    r.push(row_val("-n", "--length", "<N>", "read only N bytes"));
    r.push(row_val("-j", "--jump", "<N>", "bias added to every displayed offset"));
    r.push(row("-u", "--uppercase", "uppercase hex digits (A-F)"));
    r.push(row("", "--offset-dec", "show offsets in decimal"));
    assert(row_views(r@) =~= offset_nav_table());
    r
}

/// The lines on colors.
pub open spec fn color_table() -> Seq<
    (Seq<char>, Seq<char>, Option<Seq<char>>, Seq<char>),
> {
    seq![
        value_line("-L"@, "--color"@, "<WHEN>"@, "auto | always | never  (default: auto)"@),
        value_line("-S"@, "--scheme"@, "<NAME>"@, "default | type | gradient"@),
        value_line("-T"@, "--table"@, "<MODE>"@, "ascii | default | braille | cp437 | ebcdic"@),
    ]
}

/// The lines on colors.
pub fn color_rows() -> (r: Vec<HelpRow>)
    ensures
        row_views(r@) == color_table(),
{
    let mut r: Vec<HelpRow> = Vec::new();
    r.push(row_val("-L", "--color", "<WHEN>", "auto | always | never  (default: auto)"));
    r.push(row_val("-S", "--scheme", "<NAME>", "default | type | gradient"));
    r.push(row_val("-T", "--table", "<MODE>", "ascii | default | braille | cp437 | ebcdic"));
    assert(row_views(r@) =~= color_table());
    r
}

/// The lines on filtering and flow.
pub open spec fn filtering_table() -> Seq<
    (Seq<char>, Seq<char>, Option<Seq<char>>, Seq<char>),
> {
    seq![
        line("-w"@, "--squeeze"@, "replace identical rows with '*'"@),
        value_line("-m"@, "--max-lines"@, "<N>"@, "stop after N output lines"@),
        line("-q"@, "--quiet"@, "suppress warnings"@),
    ]
}

/// The lines on filtering and flow.
pub fn filtering_rows() -> (r: Vec<HelpRow>)
    ensures
        row_views(r@) == filtering_table(),
{
    let mut r: Vec<HelpRow> = Vec::new();
    r.push(row("-w", "--squeeze", "replace identical rows with '*'"));
    r.push(row_val("-m", "--max-lines", "<N>", "stop after N output lines"));
    r.push(row("-q", "--quiet", "suppress warnings"));
    assert(row_views(r@) =~= filtering_table());
    r
}

/// The lines on custom formats.
pub open spec fn custom_format_table() -> Seq<
    (Seq<char>, Seq<char>, Option<Seq<char>>, Seq<char>),
> {
    seq![
        value_line("-F"@, "--format"@, "<FMT>"@, "hexdump -e style format string"@),
        value_line("-f"@, "--format-file"@, "<FILE>"@, "read format strings from file"@),
    ]
}

/// The lines on custom formats.
pub fn custom_format_rows() -> (r: Vec<HelpRow>)
    ensures
        row_views(r@) == custom_format_table(),
{
    let mut r: Vec<HelpRow> = Vec::new();
    r.push(row_val("-F", "--format", "<FMT>", "hexdump -e style format string"));
    r.push(row_val("-f", "--format-file", "<FILE>", "read format strings from file"));
    assert(row_views(r@) =~= custom_format_table());
    r
}

/// The lines on anything else.
pub open spec fn misc_table() -> Seq<
    (Seq<char>, Seq<char>, Option<Seq<char>>, Seq<char>),
> {
    seq![
        line("-h"@, "--help"@, "show this help"@),
        line("-v"@, "--version"@, "show version"@),
    ]
}

/// The lines on anything else.
pub fn misc_rows() -> (r: Vec<HelpRow>)
    ensures
        row_views(r@) == misc_table(),
{
    let mut r: Vec<HelpRow> = Vec::new();
    r.push(row("-h", "--help", "show this help"));
    r.push(row("-v", "--version", "show version"));
    assert(row_views(r@) =~= misc_table());
    r
}

/// The groups of the page.
pub open spec fn section_table() -> Seq<
    (
        Seq<char>,
        Option<Seq<char>>,
        Seq<(Seq<char>, Seq<char>, Option<Seq<char>>, Seq<char>)>,
    ),
> {
    seq![
        (
            "OUTPUT FORMAT"@,
            Some("Rule: lowercase = one-byte mode, UPPERCASE = two-byte mode."@),
            output_format_table(),
        ),
        ("LAYOUT"@, None, layout_table()),
        ("OFFSET & NAVIGATION"@, None, offset_nav_table()),
        ("COLOR"@, None, color_table()),
        ("FILTERING & FLOW"@, None, filtering_table()),
        ("CUSTOM FORMAT"@, None, custom_format_table()),
        ("MISC"@, None, misc_table()),
    ]
}

/// The groups of the page.
pub fn sections() -> (r: Vec<HelpSection>)
    ensures
        section_views(r@) == section_table(),
{
    let mut r: Vec<HelpSection> = Vec::new();
    r.push(
        HelpSection {
            title: "OUTPUT FORMAT",
            note: Some("Rule: lowercase = one-byte mode, UPPERCASE = two-byte mode."),
            rows: output_format_rows(),
        },
    );
    r.push(HelpSection { title: "LAYOUT", note: None, rows: layout_rows() });
    r.push(HelpSection { title: "OFFSET & NAVIGATION", note: None, rows: offset_nav_rows() });
    r.push(HelpSection { title: "COLOR", note: None, rows: color_rows() });
    r.push(HelpSection { title: "FILTERING & FLOW", note: None, rows: filtering_rows() });
    r.push(HelpSection { title: "CUSTOM FORMAT", note: None, rows: custom_format_rows() });
    r.push(HelpSection { title: "MISC", note: None, rows: misc_rows() });
    assert(section_views(r@) =~= section_table());
    r
}

/// The page that `HelpPage::render` makes of a title, lines on usage, a text, groups of lines and a
/// last line, in color or not.
pub uninterp spec fn page_text(
    title: Seq<char>,
    usage: Seq<Seq<char>>,
    blurb: Seq<char>,
    sections: Seq<
        (
            Seq<char>,
            Option<Seq<char>>,
            Seq<(Seq<char>, Seq<char>, Option<Seq<char>>, Seq<char>)>,
        ),
    >,
    footer: Seq<char>,
    color: bool,
) -> Seq<char>;

/// The views of some texts.
pub open spec fn str_views(v: Seq<&'static str>) -> Seq<Seq<char>> {
    Seq::new(v.len(), |i: int| v[i]@)
}

/// Calls `HelpPage::render` on a page with the given parts. The page depends on the parts and the
/// colors alone; how it is laid out is left to `clihelp`.
#[verifier::external_body]
fn render_page(
    title: &'static str,
    usage: Vec<&'static str>,
    blurb: &'static str,
    sections: Vec<HelpSection>,
    footer: &'static str,
    color: bool,
) -> (r: String)
    ensures
        r@ == page_text(
            title@,
            str_views(usage@),
            blurb@,
            section_views(sections@),
            footer@,
            color,
        ),
{
    let mut page = HelpPage::new(title).blurb(blurb).footer(footer);
    for text in usage {
        page = page.usage(text);
    }
    for s in sections {
        let lines = s.rows.iter();
        let rows = lines.map(
            |r| Row { short: r.short, long: r.long, placeholder: r.placeholder, desc: r.desc },
        );
        page = page.section(Section { title: s.title, note: s.note, rows: rows.collect() });
    }
    page.render(color)
}

/// The name of the tool and its version.
pub fn version_text() -> (r: String)
    ensures
        r@ == "fasthex 0.3.0"@,
{
    fixed("fasthex 0.3.0")
}

/// The lines on usage.
pub open spec fn usage_table() -> Seq<Seq<char>> {
    seq![
        "fasthex [options] [file]..."@,
        "fasthex -r [options] [file] [-j <offset>]"@,
        "fasthex [options] -          read from stdin explicitly"@,
    ]
}

/// The text of the help page.
pub fn help_text(on: bool) -> (r: String)
    ensures
        r@ == page_text(
            "fasthex 0.3.0 - a very fast hex dumper"@,
            usage_table(),
            "Multiple files are concatenated and treated as one stream.\nIf no file is given, reads from stdin."@,
            section_table(),
            "SIZE SUFFIXES: KiB/K/MiB/M/GiB/G/TiB/T/PiB/P/EiB/E  kB/MB/GB/TB/PB/EB  0x…"@,
            on,
        ),
{
    let mut usage: Vec<&'static str> = Vec::new();
    usage.push("fasthex [options] [file]...");
    usage.push("fasthex -r [options] [file] [-j <offset>]");
    usage.push("fasthex [options] -          read from stdin explicitly");
    assert(str_views(usage@) =~= usage_table());
    render_page(
        "fasthex 0.3.0 - a very fast hex dumper",
        usage,
        "Multiple files are concatenated and treated as one stream.\nIf no file is given, reads from stdin.",
        sections(),
        "SIZE SUFFIXES: KiB/K/MiB/M/GiB/G/TiB/T/PiB/P/EiB/E  kB/MB/GB/TB/PB/EB  0x…",
        on,
    )
}

} // verus!
