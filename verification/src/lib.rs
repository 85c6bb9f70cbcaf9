//! fasthex: the logic of a hex dumper.
//!
//! Everything the tool decides or computes lives here: command line options, the text of a row
//! in each display mode, borders, whole dumps, plain and C output, custom formats, and the way
//! back from a dump to the bytes it shows. Reading and writing are left to the caller.

pub mod bytes;
pub mod charset;
pub mod numeral;
pub mod read;
pub mod options;
pub mod color;
pub mod row;
pub mod template;
pub mod sample;
pub mod layout;
pub mod border;
pub mod dump;
pub mod shown;
pub mod columns;
pub mod painted;
pub mod frames;
pub mod plan;
pub mod length;
pub mod stream;
pub mod whole;
pub mod plain;
pub mod carray;
pub mod reverse;
pub mod undump;
pub mod roundtrip;
pub mod uncolored;
pub mod text;
pub mod wording;
pub mod size;
pub mod amounts;
pub mod args;
pub mod choices;
pub mod custom;
pub mod fields;
pub mod help;
pub mod input;
pub mod writer;
