//! Output through a pipe: what is done next, given how the last step went.

use vstd::prelude::*;

verus! {

/// How a step went.
#[derive(Clone, Copy, PartialEq, Eq, Debug, Structural)]
pub enum Event {
    /// This many bytes went into the pipe.
    Piped(usize),
    /// The system cannot move memory into a pipe.
    PipeRefused,
    /// Moving memory into the pipe failed.
    PipeFailed,
    /// This many bytes went from the pipe to the output.
    Moved(usize),
    /// The output cannot be reached from a pipe.
    MoveRefused,
    /// Moving bytes to the output failed.
    MoveFailed,
    /// What was in the pipe has been read and written.
    Drained,
}

/// What is done next.
#[derive(Clone, Copy, PartialEq, Eq, Debug, Structural)]
pub enum Action {
    /// Move the bytes from this place on into the pipe.
    Pipe(usize),
    /// Move this many bytes from the pipe to the output.
    Move(usize),
    /// Read what is in the pipe, and write it.
    Drain,
    /// Write the bytes from this place on, and be done.
    Write(usize),
    /// Everything has been written.
    Done,
    /// The pipe took nothing.
    NothingPiped,
    /// The output took nothing.
    NothingMoved,
    /// The last step failed.
    Failed,
}

/// The state of writing `len` bytes: the first `piped` have gone into the pipe, and `held` of them
/// are still there.
pub struct Chunk {
    pub len: usize,
    pub piped: usize,
    pub held: usize,
    /// Is the pipe left aside from now on?
    pub fallback: bool,
}

impl Chunk {
    /// What is in the pipe has gone into it.
    pub open spec fn wf(self) -> bool {
        self.held <= self.piped <= self.len
    }

    /// The number of bytes that have reached the output.
    pub open spec fn written(self) -> int {
        self.piped - self.held
    }

    /// What is done next where nothing is in the pipe.
    pub open spec fn onward(self) -> Action {
        if self.piped == self.len {
            Action::Done
        } else {
            Action::Pipe(self.piped)
        }
    }

    /// Starts writing `len` bytes.
    pub fn start(len: usize, fallback: bool) -> (r: (Chunk, Action))
        ensures
            r.0.wf(),
            r.0.len == len,
            r.0.piped == 0,
            r.0.held == 0,
            r.0.fallback == fallback,
            r.1 == if fallback {
                Action::Write(0)
            } else {
                r.0.onward()
            },
    {
        let chunk = Chunk { len, piped: 0, held: 0, fallback };
        if fallback {
            (chunk, Action::Write(0))
        } else if len == 0 {
            (chunk, Action::Done)
        } else {
            (chunk, Action::Pipe(0))
        }
    }

    /// Can the event follow in this state?
    pub open spec fn accepts(self, e: Event) -> bool {
        match e {
            Event::Piped(n) => self.held == 0 && n <= self.len - self.piped,
            Event::Moved(n) => n <= self.held,
            _ => true,
        }
    }

    /// The state after an event.
    pub open spec fn after(self, e: Event) -> Chunk {
        match e {
            Event::Piped(n) => Chunk { piped: (self.piped + n) as usize, held: n, ..self },
            Event::Moved(n) => Chunk { held: (self.held - n) as usize, ..self },
            Event::PipeRefused | Event::MoveRefused => Chunk { fallback: true, ..self },
            Event::Drained => Chunk { held: 0, ..self },
            Event::PipeFailed | Event::MoveFailed => self,
        }
    }

    /// What is done after an event. Once the pipe is refused, what it holds is written first, and
    /// then the rest.
    pub open spec fn answer(self, e: Event) -> Action {
        match e {
            Event::Piped(n) => if n == 0 {
                Action::NothingPiped
            } else {
                Action::Move(n)
            },
            Event::Moved(n) => if n == 0 {
                Action::NothingMoved
            } else if self.held > n {
                Action::Move((self.held - n) as usize)
            } else {
                self.onward()
            },
            Event::PipeRefused | Event::MoveRefused => Action::Drain,
            Event::Drained => Action::Write(self.piped),
            Event::PipeFailed | Event::MoveFailed => Action::Failed,
        }
    }

    /// Decides what is done after an event.
    pub fn next(&mut self, e: Event) -> (a: Action)
        requires
            old(self).wf(),
            old(self).accepts(e),
        ensures
            *final(self) == old(self).after(e),
            a == old(self).answer(e),
            final(self).wf(),
            a == Action::Done ==> final(self).written() == final(self).len,
            a matches Action::Pipe(from) ==> final(self).written() == from,
            a matches Action::Write(from) ==> final(self).written() == from,
    {
        match e {
            Event::Piped(n) => {
                self.piped = self.piped + n;
                self.held = n;
                if n == 0 {
                    Action::NothingPiped
                } else {
                    Action::Move(n)
                }
            },
            Event::Moved(n) => {
                self.held = self.held - n;
                if n == 0 {
                    Action::NothingMoved
                } else if self.held > 0 {
                    Action::Move(self.held)
                } else if self.piped == self.len {
                    Action::Done
                } else {
                    Action::Pipe(self.piped)
                }
            },
            Event::PipeRefused | Event::MoveRefused => {
                self.fallback = true;
                Action::Drain
            },
            Event::Drained => {
                self.held = 0;
                Action::Write(self.piped)
            },
            Event::PipeFailed | Event::MoveFailed => Action::Failed,
        }
    }
}

/// Only a step that failed or moved nothing stops the work. A refused pipe is drained and then left
/// aside; a pipe that still holds bytes is moved on, and an empty one is filled again.
pub proof fn lemma_answers(c: Chunk, e: Event)
    requires
        c.wf(),
        c.accepts(e),
    ensures
        c.answer(e) == Action::Failed <==> e == Event::PipeFailed || e == Event::MoveFailed,
        c.answer(e) == Action::NothingPiped <==> e == Event::Piped(0),
        c.answer(e) == Action::NothingMoved <==> e == Event::Moved(0),
        c.answer(e) == Action::Drain <==> e == Event::PipeRefused || e == Event::MoveRefused,
        c.after(e).fallback <==> c.fallback || e == Event::PipeRefused || e == Event::MoveRefused,
        e matches Event::Piped(n) ==> (n > 0 ==> c.answer(e) == Action::Move(n)),
        e matches Event::Moved(n) ==> {
            &&& 0 < n < c.held ==> c.answer(e) == Action::Move((c.held - n) as usize)
            &&& n > 0 && n == c.held && c.piped < c.len ==> c.answer(e) == Action::Pipe(c.piped)
            &&& n > 0 && n == c.held && c.piped == c.len ==> c.answer(e) == Action::Done
        },
        e == Event::Drained ==> c.answer(e) == Action::Write(c.piped),
{
}

// ---------------------------------------------------------------- a whole run

/// A run of writing: its state, what the pipe holds, what has reached the output, and what is done
/// next.
pub struct Run {
    pub chunk: Chunk,
    pub pipe: Seq<u8>,
    pub out: Seq<u8>,
    pub action: Action,
}

/// Can the event follow the action?
pub open spec fn follows(a: Action, e: Event) -> bool {
    match a {
        Action::Pipe(_) => e is Piped || e is PipeRefused || e is PipeFailed,
        Action::Move(_) => e is Moved || e is MoveRefused || e is MoveFailed,
        Action::Drain => e is Drained,
        _ => false,
    }
}

/// A run of writing `buf` after the given events. Bytes leave the pipe in the order in which they
/// went into it.
pub open spec fn run_of(buf: Seq<u8>, first: (Chunk, Action), events: Seq<Event>) -> Run
    decreases events.len(),
{
    if events.len() == 0 {
        Run { chunk: first.0, pipe: seq![], out: seq![], action: first.1 }
    } else {
        let r = run_of(buf, first, events.drop_last());
        let e = events.last();
        Run {
            chunk: r.chunk.after(e),
            pipe: match e {
                Event::Piped(n) => r.pipe + buf.subrange(
                    r.chunk.piped as int,
                    r.chunk.piped + n,
                ),
                Event::Moved(n) => r.pipe.skip(n as int),
                Event::Drained => seq![],
                _ => r.pipe,
            },
            out: match e {
                Event::Moved(n) => r.out + r.pipe.take(n as int),
                Event::Drained => r.out + r.pipe,
                _ => r.out,
            },
            action: r.chunk.answer(e),
        }
    }
}

/// Can the events occur in this order?
pub open spec fn possible(buf: Seq<u8>, first: (Chunk, Action), events: Seq<Event>) -> bool
    decreases events.len(),
{
    events.len() == 0 || {
        let r = run_of(buf, first, events.drop_last());
        &&& possible(buf, first, events.drop_last())
        &&& follows(r.action, events.last())
        &&& r.chunk.accepts(events.last())
    }
}

/// Is this how writing `buf` starts?
pub open spec fn starts(buf: Seq<u8>, first: (Chunk, Action)) -> bool {
    let c = first.0;
    c.len == buf.len() && c.piped == 0 && c.held == 0 && first.1 == if c.fallback {
        Action::Write(0)
    } else {
        c.onward()
    }
}

/// However the steps go, every byte reaches the output once and in order: what has reached it is
/// the start of the text, when everything is done it is the whole text, and what is written past
/// the pipe completes it.
pub proof fn lemma_run(buf: Seq<u8>, first: (Chunk, Action), events: Seq<Event>)
    requires
        starts(buf, first),
        possible(buf, first, events),
    ensures
        ({
            let r = run_of(buf, first, events);
            &&& r.chunk.wf()
            &&& r.chunk.len == buf.len()
            &&& r.out == buf.take(r.chunk.written())
            &&& r.pipe == buf.subrange(r.chunk.written(), r.chunk.piped as int)
            &&& r.action == Action::Done ==> r.out == buf
            &&& r.action matches Action::Pipe(from) ==> r.out == buf.take(from as int)
                && r.pipe.len() == 0
            &&& r.action matches Action::Write(from) ==> r.out + buf.skip(from as int) == buf
        }),
    decreases events.len(),
{
    let r = run_of(buf, first, events);
    if events.len() > 0 {
        let before = run_of(buf, first, events.drop_last());
        lemma_run(buf, first, events.drop_last());
        let w = before.chunk.written();
        match events.last() {
            Event::Piped(n) => {
                assert(r.pipe =~= buf.subrange(w, r.chunk.piped as int));
            },
            Event::Moved(n) => {
                assert(before.out + before.pipe.take(n as int) =~= buf.take(w + n));
                assert(before.pipe.skip(n as int) =~= buf.subrange(w + n, r.chunk.piped as int));
            },
            Event::Drained => {
                assert(before.out + before.pipe =~= buf.take(r.chunk.piped as int));
            },
            _ => {},
        }
    }
    assert(buf.take(buf.len() as int) =~= buf);
    if let Action::Write(from) = r.action {
        assert(buf.take(from as int) + buf.skip(from as int) =~= buf);
    }
}

} // verus!
