//! Where the bytes of a dump come from.

use crate::dump::{offset_at, select_range, skipped};
use crate::options::Options;
use crate::size::fixed;
use crate::stream::stream_start;
use crate::text::{chars_of, spells, texts};
use vstd::prelude::*;

verus! {

/// Is the name that of standard input?
pub open spec fn is_stdin(name: Seq<char>) -> bool {
    name == "-"@
}

/// The inputs of a dump, in their order; standard input where none is named.
pub open spec fn input_names(files: Seq<Seq<char>>) -> Seq<Seq<char>> {
    if files.len() == 0 {
        seq!["-"@]
    } else {
        files
    }
}

/// The inputs are the files named, in their order, and standard input where none is.
pub proof fn lemma_inputs(files: Seq<Seq<char>>)
    ensures
        files.len() > 0 ==> input_names(files) == files,
        files.len() == 0 ==> input_names(files) == seq![seq!['-']],
        is_stdin(seq!['-']),
        forall|name: Seq<char>| #[trigger] is_stdin(name) ==> name == seq!['-'],
{
    reveal_strlit("-");
    assert("-"@ =~= seq!['-']);
}

/// The inputs of a dump, in their order.
pub fn inputs(opts: &Options) -> (r: Vec<String>)
    ensures
        texts(r@) == input_names(texts(opts.files@)),
{
    let mut r: Vec<String> = Vec::new();
    if opts.files.len() == 0 {
        r.push(fixed("-"));
        assert(texts(r@) =~= input_names(texts(opts.files@)));
        return r;
    }
    for i in 0..opts.files.len()
        invariant
            texts(r@) == texts(opts.files@).take(i as int),
    {
        let ghost so_far = texts(r@);
        r.push(opts.files[i].clone());
        assert(texts(r@) =~= so_far.push(opts.files@[i as int]@));
        assert(texts(r@) =~= texts(opts.files@).take(i + 1));
    }
    assert(texts(r@) =~= texts(opts.files@));
    r
}

/// Is there one input, and is it a file? Its bytes can then be taken from memory.
pub fn single_file(opts: &Options) -> (r: bool)
    ensures
        r == (opts.files@.len() == 1 && !is_stdin(opts.files@[0]@)),
{
    opts.files.len() == 1 && {
        let name: Vec<char> = chars_of(opts.files[0].as_str());
        !spells(&name, "-")
    }
}

/// One input of several.
pub enum Source {
    Stdin,
    File(String),
}

/// The inputs that have not been opened yet are those from number `next` on.
pub struct Sources {
    pub files: Vec<String>,
    pub next: usize,
}

impl Sources {
    /// The next input is one of the inputs, or all have been opened.
    pub open spec fn wf(self) -> bool {
        self.next <= self.files@.len()
    }

    /// All inputs, before the first one.
    pub fn new(files: Vec<String>) -> (r: Sources)
        ensures
            r.wf(),
            r.files == files,
            r.next == 0,
    {
        Sources { files, next: 0 }
    }

    /// Goes on to the next input: at the start, and whenever one has ended. The bytes of all inputs
    /// together are one stream.
    pub fn advance(&mut self) -> (r: Option<Source>)
        requires
            old(self).wf(),
        ensures
            final(self).wf(),
            final(self).files == old(self).files,
            if old(self).next < old(self).files@.len() {
                let name = old(self).files@[old(self).next as int]@;
                &&& final(self).next == old(self).next + 1
                &&& r matches Some(s) && match s {
                    Source::Stdin => is_stdin(name),
                    Source::File(f) => !is_stdin(name) && f@ == name,
                }
            } else {
                final(self).next == old(self).next && r is None
            },
    {
        if self.next >= self.files.len() {
            return None;
        }
        let at: usize = self.next;
        self.next = at + 1;
        let name: Vec<char> = chars_of(self.files[at].as_str());
        if spells(&name, "-") {
            Some(Source::Stdin)
        } else {
            Some(Source::File(self.files[at].clone()))
        }
    }
}

/// How the bytes before the first one shown are left out of a stream.
#[derive(Clone, Copy, PartialEq, Eq, Debug, Structural)]
pub enum Skip {
    Nothing,
    /// The one file is read from this place on.
    Seek(u64),
    /// This many bytes are read and dropped.
    Read(u64),
    /// Everything is read, and the bytes that are shown are counted from the end.
    FromEnd,
}

/// How bytes are left out. Counting from the end takes the length, which a stream has only once it
/// has been read.
pub open spec fn skip_plan(skip: i64, single: bool) -> Skip {
    if skip == 0 {
        Skip::Nothing
    } else if skip < 0 {
        Skip::FromEnd
    } else if single {
        Skip::Seek(skip as u64)
    } else {
        Skip::Read(skip as u64)
    }
}

/// Bytes are left out from the start, in a file by moving to the place and in a stream by reading;
/// or they are counted from the end.
pub proof fn lemma_skip_planned(skip: i64, single: bool)
    ensures
        skip_plan(skip, single) == Skip::Nothing <==> skip == 0,
        skip_plan(skip, single) == Skip::FromEnd <==> skip < 0,
        skip > 0 && single ==> (skip_plan(skip, single) matches Skip::Seek(n) && n == skip),
        skip > 0 && !single ==> (skip_plan(skip, single) matches Skip::Read(n) && n == skip),
{
}

/// How bytes are left out.
pub fn plan_skip(skip: i64, single: bool) -> (r: Skip)
    ensures
        r == skip_plan(skip, single),
{
    if skip == 0 {
        Skip::Nothing
    } else if skip < 0 {
        Skip::FromEnd
    } else if single {
        Skip::Seek(skip as u64)
    } else {
        Skip::Read(skip as u64)
    }
}

/// The settings once the length of a stream is known: the number of bytes left out is counted from
/// the start.
pub fn resolve_skip(options: Options, len: usize) -> (r: Options)
    requires
        len <= i64::MAX,
    ensures
        r == (Options { skip: skipped(options.skip, len as int) as i64, ..options }),
        0 <= r.skip <= len,
        r.skip == skipped(options.skip, len as int),
{
    let (from, _) = select_range(&options, len);
    let mut r = options;
    r.skip = from as i64;
    r
}

/// A stream whose bytes are counted from the end is shown with the offsets that a file of the same
/// bytes is shown with.
pub proof fn lemma_resolved_start(options: Options, len: int)
    requires
        0 <= len <= i64::MAX,
    ensures
        ({
            let from = skipped(options.skip, len);
            &&& 0 <= from <= len
            &&& stream_start(Options { skip: from as i64, ..options }) == offset_at(
                from as u64,
                options.jump as int,
            )
        }),
{
}

/// The number of bytes to read and drop next, with room for `room`.
pub fn skip_step(left: u64, room: usize) -> (n: usize)
    ensures
        n == if left < room {
            left as int
        } else {
            room as int
        },
        n <= left,
{
    if left < room as u64 {
        left as usize
    } else {
        room
    }
}

} // verus!
