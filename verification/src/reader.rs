//! The buffer that get_next_line keeps between calls, as a state machine:
//! the caller asks it for the next step, performs the reads it asks for,
//! and hands back what each read returned.
use vstd::prelude::*;
use crate::lines::{
    first_nl, flatten, is_line, lemma_first_index_of, lemma_first_index_of_unique,
    lemma_lines_flatten, lemma_lines_of_newline_free, lemma_lines_of_split, lemma_lines_well_formed,
    lines_of, newline_free, NL,
};

verus! {

/// Number of bytes asked of the file descriptor by each read of the
/// per-descriptor reader.
pub const BUFFER_SIZE: usize = 3;

/// Number of file descriptors that have a buffer of their own.
pub const MAX_FD: i32 = 10240;

/// What the caller has to do next.
#[derive(Debug, PartialEq, Eq)]
pub enum Step {
    /// Read up to a buffer's worth of bytes and hand the result to `read_newln`.
    Read,
    /// The next line, with its newline when it has one.
    Line(Vec<u8>),
    /// There is no line left: the stream ended, or reading it failed.
    End,
}

/// What a read of the file descriptor returned.
#[derive(Debug, PartialEq, Eq)]
pub enum ReadResult {
    /// Some bytes.
    Bytes(Vec<u8>),
    /// End of file: the read returned no byte.
    Eof,
    /// The read failed.
    Failed,
}

/// The mathematical value of a `Step`.
pub enum StepView {
    Read,
    Line(Seq<u8>),
    End,
}

/// The mathematical value of a `ReadResult`.
pub enum ReadView {
    Bytes(Seq<u8>),
    Eof,
    Failed,
}

impl View for Step {
    type V = StepView;

    open spec fn view(&self) -> StepView {
        match self {
            Step::Read => StepView::Read,
            Step::Line(l) => StepView::Line(l@),
            Step::End => StepView::End,
        }
    }
}

impl View for ReadResult {
    type V = ReadView;

    open spec fn view(&self) -> ReadView {
        match self {
            ReadResult::Bytes(b) => ReadView::Bytes(b@),
            ReadResult::Eof => ReadView::Eof,
            ReadResult::Failed => ReadView::Failed,
        }
    }
}

/// Looking at the buffer alone: its first line when it holds a newline,
/// else a request to read. Gives the new buffer and the step.
pub open spec fn poll_spec(buffer: Seq<u8>) -> (Seq<u8>, StepView) {
    let p = first_nl(buffer);
    if 0 <= p < buffer.len() {
        (buffer.skip(p + 1), StepView::Line(buffer.take(p + 1)))
    } else {
        (buffer, StepView::Read)
    }
}

/// Taking in what a read returned. Bytes join the buffer, which then gives
/// its first line if it has one. At end of file the first line goes out, and
/// when there is no newline left the rest of the buffer is the last line. A
/// failed read empties the buffer and ends.
pub open spec fn read_spec(buffer: Seq<u8>, ev: ReadView) -> (Seq<u8>, StepView) {
    match ev {
        ReadView::Bytes(b) => poll_spec(buffer + b),
        ReadView::Eof => {
            let p = first_nl(buffer);
            if 0 <= p < buffer.len() {
                poll_spec(buffer)
            } else if buffer.len() > 0 {
                (Seq::empty(), StepView::Line(buffer))
            } else {
                (Seq::empty(), StepView::End)
            }
        },
        ReadView::Failed => (Seq::empty(), StepView::End),
    }
}

/// The lines that successive calls give out when the reads of the stream
/// return `chunks` in turn and then end of file, starting from `buffer`:
/// each call first looks at the buffer, then reads until it has a line or the
/// stream has ended.
pub open spec fn drive(buffer: Seq<u8>, chunks: Seq<Seq<u8>>) -> Seq<Seq<u8>>
    decreases chunks.len(), buffer.len(),
{
    let (b1, s1) = poll_spec(buffer);
    match s1 {
        StepView::Line(l) => if b1.len() < buffer.len() {
            seq![l] + drive(b1, chunks)
        } else {
            seq![l]
        },
        StepView::End => Seq::empty(),
        StepView::Read => {
            if chunks.len() == 0 {
                match read_spec(b1, ReadView::Eof).1 {
                    StepView::Line(l) => seq![l],
                    _ => Seq::empty(),
                }
            } else {
                let (b2, s2) = read_spec(b1, ReadView::Bytes(chunks[0]));
                match s2 {
                    StepView::Line(l) => seq![l] + drive(b2, chunks.drop_first()),
                    StepView::Read => drive(b2, chunks.drop_first()),
                    StepView::End => Seq::empty(),
                }
            }
        },
    }
}

/// What the first step of a call does, stated on bytes: it never ends the
/// stream; asking for a read, it leaves the buffer exactly as it was, which
/// then holds no newline; giving a line, that line ends with the buffer's
/// first newline and the line followed by the kept bytes is the old buffer.
pub proof fn lemma_first_step(buffer: Seq<u8>)
    ensures
        !(poll_spec(buffer).1 is End),
        poll_spec(buffer).1 is Read <==> newline_free(buffer),
        poll_spec(buffer).1 is Read ==> poll_spec(buffer).0 == buffer,
        poll_spec(buffer).1 matches StepView::Line(l) ==> {
            &&& l + poll_spec(buffer).0 == buffer
            &&& l.len() > 0
            &&& l.last() == NL
            &&& newline_free(l.drop_last())
        },
{
    lemma_first_index_of(buffer, NL);
    let p = first_nl(buffer);
    if p < buffer.len() {
        assert(buffer.take(p + 1) + buffer.skip(p + 1) == buffer);
        assert(buffer.take(p + 1).drop_last() =~= buffer.take(p));
        assert(!newline_free(buffer));
    }
}

/// What a read step does, stated on bytes. Bytes read never end the call: the
/// buffer followed by the bytes is either kept whole, holding no newline, with
/// a request for another read, or is a line ending with its first newline
/// followed by the kept bytes. At end of file nothing is lost either: a line
/// followed by the kept bytes is the old buffer, the last line is the whole
/// newline-free buffer, and `End` comes only from an empty buffer. A failed
/// read ends with an empty buffer.
pub proof fn lemma_read_step(buffer: Seq<u8>, ev: ReadView)
    ensures
        ev matches ReadView::Bytes(b) ==> {
            let (kept, step) = read_spec(buffer, ev);
            &&& !(step is End)
            &&& step is Read ==> kept == buffer + b && newline_free(kept)
            &&& step matches StepView::Line(l) ==> {
                &&& l + kept == buffer + b
                &&& l.len() > 0
                &&& l.last() == NL
                &&& newline_free(l.drop_last())
            }
        },
        ev is Eof ==> {
            let (kept, step) = read_spec(buffer, ev);
            &&& !(step is Read)
            &&& step is End <==> buffer.len() == 0
            &&& step is End ==> kept.len() == 0
            &&& step matches StepView::Line(l) ==> l + kept == buffer && l.len() > 0
            &&& newline_free(buffer) ==> kept.len() == 0
        },
        ev is Failed ==> read_spec(buffer, ev) == (Seq::<u8>::empty(), StepView::End),
{
    lemma_first_step(buffer);
    if let ReadView::Bytes(b) = ev {
        lemma_first_step(buffer + b);
    }
    if ev is Eof {
        lemma_first_index_of(buffer, NL);
        if buffer.len() > 0 && first_nl(buffer) == buffer.len() {
            assert(buffer + Seq::<u8>::empty() == buffer);
        }
        if buffer.len() == 0 {
            assert(buffer =~= Seq::<u8>::empty());
        }
    }
}

/// However the reads cut the stream into chunks, the calls give out the lines
/// of what the buffer held followed by the stream.
pub proof fn lemma_drive_lines(buffer: Seq<u8>, chunks: Seq<Seq<u8>>)
    ensures
        drive(buffer, chunks) == lines_of(buffer + flatten(chunks)),
    decreases chunks.len(), buffer.len(),
{
    lemma_first_index_of(buffer, NL);
    let p = first_nl(buffer);
    let rest = flatten(chunks);
    if p < buffer.len() {
        lemma_drive_lines(buffer.skip(p + 1), chunks);
        lemma_lines_of_split(buffer, rest);
    } else if chunks.len() == 0 {
        assert(rest =~= Seq::<u8>::empty());
        assert(buffer + rest =~= buffer);
        lemma_lines_of_newline_free(buffer);
    } else {
        let c = chunks[0];
        let tail = chunks.drop_first();
        let joined = buffer + c;
        assert(buffer + rest =~= joined + flatten(tail));
        lemma_first_index_of(joined, NL);
        let q = first_nl(joined);
        if q < joined.len() {
            lemma_drive_lines(joined.skip(q + 1), tail);
            lemma_lines_of_split(joined, flatten(tail));
        } else {
            lemma_drive_lines(joined, tail);
        }
    }
}

/// The calls give back the whole stream, line by line: joined, the lines are
/// the stream; each holds a newline only as its last byte; every line but the
/// last ends with a newline.
pub proof fn lemma_stream_reassembles(chunks: Seq<Seq<u8>>)
    ensures
        flatten(drive(Seq::empty(), chunks)) == flatten(chunks),
        forall|i: int| 0 <= i < drive(Seq::empty(), chunks).len()
            ==> is_line(#[trigger] drive(Seq::empty(), chunks)[i]),
        forall|i: int| 0 <= i < drive(Seq::empty(), chunks).len() - 1
            ==> (#[trigger] drive(Seq::empty(), chunks)[i]).last() == NL,
{
    lemma_drive_lines(Seq::empty(), chunks);
    assert(Seq::<u8>::empty() + flatten(chunks) =~= flatten(chunks));
    lemma_lines_flatten(flatten(chunks));
    lemma_lines_well_formed(flatten(chunks));
}

/// Every line that a step gives out is non-empty and holds a newline only as
/// its last byte, whether it comes from the buffer or after a read.
pub proof fn lemma_step_lines_well_formed(buffer: Seq<u8>, ev: ReadView)
    ensures
        poll_spec(buffer).1 matches StepView::Line(l) ==> is_line(l),
        read_spec(buffer, ev).1 matches StepView::Line(l) ==> is_line(l),
{
    lemma_poll_line_well_formed(buffer);
    match ev {
        ReadView::Bytes(b) => lemma_poll_line_well_formed(buffer + b),
        _ => {
            lemma_first_index_of(buffer, NL);
            if buffer.len() > 0 {
                assert(buffer.drop_last() =~= buffer.take(buffer.len() - 1));
            }
        },
    }
}

proof fn lemma_poll_line_well_formed(buffer: Seq<u8>)
    ensures
        poll_spec(buffer).1 matches StepView::Line(l) ==> is_line(l),
{
    lemma_first_index_of(buffer, NL);
    let p = first_nl(buffer);
    if 0 <= p < buffer.len() {
        assert(buffer.take(p + 1).drop_last() =~= buffer.take(p));
    }
}

/// Once the stream is exhausted, the calls keep answering `End`: a call that
/// found end of file with nothing to give leaves the buffer empty, and a call
/// on an empty buffer at end of file ends again.
pub proof fn lemma_exhausted_stream_ends(buffer: Seq<u8>)
    requires
        read_spec(buffer, ReadView::Eof).1 == StepView::End,
    ensures
        read_spec(buffer, ReadView::Eof).0 == Seq::<u8>::empty(),
        poll_spec(Seq::<u8>::empty()) == (Seq::<u8>::empty(), StepView::Read),
        read_spec(Seq::<u8>::empty(), ReadView::Eof) == (Seq::<u8>::empty(), StepView::End),
{
    lemma_first_index_of(Seq::<u8>::empty(), NL);
}

/// A failed read forgets what the buffer held and ends the call.
pub proof fn lemma_failed_read_clears(buffer: Seq<u8>)
    ensures
        read_spec(buffer, ReadView::Failed) == (Seq::<u8>::empty(), StepView::End),
{
}

/// Between calls the buffer keeps fewer bytes than a read asks for. Looking
/// at a buffer shorter than `n` leaves it shorter than `n`. A read into a
/// buffer without a newline that returns at most `n` bytes either asks for
/// another read, the buffer still without a newline, or ends the call with
/// fewer than `n` bytes kept: the bytes kept after a line all come from that
/// last read, past its newline.
pub proof fn lemma_kept_bytes_stay_short(buffer: Seq<u8>, ev: ReadView, n: int)
    requires
        n > 0,
        ev matches ReadView::Bytes(b) ==> b.len() <= n,
    ensures
        buffer.len() < n ==> poll_spec(buffer).0.len() < n,
        first_nl(buffer) == buffer.len() ==> {
            let (kept, step) = read_spec(buffer, ev);
            &&& step is Read ==> first_nl(kept) == kept.len()
            &&& !(step is Read) ==> kept.len() < n
        },
{
    lemma_first_index_of(buffer, NL);
    if first_nl(buffer) == buffer.len() {
        if let ReadView::Bytes(b) = ev {
            let joined = buffer + b;
            lemma_first_index_of(joined, NL);
            let p = first_nl(joined);
            if p < buffer.len() {
                assert(joined[p] == buffer[p]);
            }
        }
    }
}

/// Position of the first newline byte in `buffer`, if any.
pub fn nl_position(buffer: &[u8]) -> (res: Option<usize>)
    ensures
        match res {
            Some(i) => i == first_nl(buffer@) && i < buffer@.len(),
            None => first_nl(buffer@) == buffer@.len(),
        },
{
    let mut i: usize = 0;
    while i < buffer.len()
        invariant
            i <= buffer@.len(),
            forall|k: int| 0 <= k < i ==> buffer@[k] != NL,
        decreases buffer@.len() - i,
    {
        if buffer[i] == NL {
            proof {
                lemma_first_index_of_unique(buffer@, NL, i as int);
            }
            return Some(i);
        }
        i = i + 1;
    }
    proof {
        lemma_first_index_of_unique(buffer@, NL, i as int);
    }
    None
}

/// The buffer a file descriptor keeps between calls: bytes read past the
/// end of the last line given out.
pub struct LineReader {
    buffer: Vec<u8>,
}

impl View for LineReader {
    type V = Seq<u8>;

    closed spec fn view(&self) -> Seq<u8> {
        self.buffer@
    }
}

impl LineReader {
    /// An empty buffer.
    pub fn new() -> (r: Self)
        ensures
            r@ == Seq::<u8>::empty(),
    {
        LineReader { buffer: Vec::new() }
    }

    /// The bytes that the buffer holds.
    pub fn pending(&self) -> (r: &[u8])
        ensures
            r@ == self@,
    {
        self.buffer.as_slice()
    }

    /// Gives out the line that ends at the newline at `buffer_index` and keeps
    /// what follows it.
    pub fn read_buffer(&mut self, buffer_index: usize) -> (line: Vec<u8>)
        requires
            buffer_index < old(self)@.len(),
        ensures
            line@ == old(self)@.take(buffer_index + 1),
            final(self)@ == old(self)@.skip(buffer_index + 1),
    {
        let len = self.buffer.len();
        assert(buffer_index < len);
        let mut rest = self.buffer.split_off(buffer_index + 1);
        std::mem::swap(&mut self.buffer, &mut rest);
        rest
    }

    /// The first step of a call: the first line of the buffer if it holds a
    /// newline, else a request to read.
    pub fn next_step(&mut self) -> (r: Step)
        ensures
            (final(self)@, r@) == poll_spec(old(self)@),
    {
        match nl_position(self.buffer.as_slice()) {
            Some(i) => {
                let line = self.read_buffer(i);
                Step::Line(line)
            },
            None => Step::Read,
        }
    }

    /// Takes in what a read returned and gives the next step.
    pub fn read_newln(&mut self, ev: ReadResult) -> (r: Step)
        ensures
            (final(self)@, r@) == read_spec(old(self)@, ev@),
    {
        match ev {
            ReadResult::Bytes(bytes) => {
                let mut bytes = bytes;
                self.buffer.append(&mut bytes);
                self.next_step()
            },
            ReadResult::Eof => {
                match nl_position(self.buffer.as_slice()) {
                    Some(i) => {
                        let line = self.read_buffer(i);
                        Step::Line(line)
                    },
                    None => {
                        if self.buffer.len() > 0 {
                            let mut line = Vec::new();
                            std::mem::swap(&mut self.buffer, &mut line);
                            Step::Line(line)
                        } else {
                            Step::End
                        }
                    },
                }
            },
            ReadResult::Failed => {
                self.buffer.clear();
                Step::End
            },
        }
    }
}

/// One buffer for each file descriptor below `MAX_FD`.
pub struct FdReaders {
    slots: Vec<LineReader>,
}

impl View for FdReaders {
    type V = Seq<Seq<u8>>;

    closed spec fn view(&self) -> Seq<Seq<u8>> {
        Seq::new(self.slots@.len(), |i: int| self.slots@[i]@)
    }
}

impl FdReaders {
    /// One buffer for each descriptor below `MAX_FD`.
    #[verifier::type_invariant]
    spec fn one_per_descriptor(&self) -> bool {
        self.slots@.len() == MAX_FD
    }

    /// Every buffer empty.
    pub fn new() -> (r: Self)
        ensures
            r@.len() == MAX_FD,
            forall|i: int| 0 <= i < MAX_FD ==> #[trigger] r@[i] == Seq::<u8>::empty(),
    {
        let mut slots: Vec<LineReader> = Vec::new();
        let mut i: i32 = 0;
        while i < MAX_FD
            invariant
                0 <= i <= MAX_FD,
                slots@.len() == i,
                forall|k: int| 0 <= k < i ==> #[trigger] slots@[k]@ == Seq::<u8>::empty(),
            decreases MAX_FD - i,
        {
            slots.push(LineReader::new());
            i = i + 1;
        }
        FdReaders { slots }
    }

    /// The first step of a call for `fd`; `End` when `fd` has no buffer.
    pub fn next_step(&mut self, fd: i32) -> (r: Step)
        ensures
            final(self)@.len() == MAX_FD,
            !(0 <= fd < MAX_FD) ==> r@ == StepView::End && final(self)@ == old(self)@,
            0 <= fd < MAX_FD ==> (final(self)@[fd as int], r@) == poll_spec(old(self)@[fd as int]),
            forall|j: int| 0 <= j < MAX_FD && j != fd ==> #[trigger] final(self)@[j] == old(self)@[j],
    {
        proof {
            use_type_invariant(&*self);
        }
        match fd_slot(fd) {
            None => Step::End,
            Some(i) => {
                let r = self.slots[i].next_step();
                assert(self@ =~= old(self)@.update(i as int, self.slots@[i as int]@));
                r
            },
        }
    }

    /// Takes in what a read of `fd` returned and gives the next step; `End`
    /// when `fd` has no buffer.
    pub fn read_newln(&mut self, fd: i32, ev: ReadResult) -> (r: Step)
        ensures
            final(self)@.len() == MAX_FD,
            !(0 <= fd < MAX_FD) ==> r@ == StepView::End && final(self)@ == old(self)@,
            0 <= fd < MAX_FD ==> (final(self)@[fd as int], r@) == read_spec(old(self)@[fd as int], ev@),
            forall|j: int| 0 <= j < MAX_FD && j != fd ==> #[trigger] final(self)@[j] == old(self)@[j],
    {
        proof {
            use_type_invariant(&*self);
        }
        match fd_slot(fd) {
            None => Step::End,
            Some(i) => {
                let r = self.slots[i].read_newln(ev);
                assert(self@ =~= old(self)@.update(i as int, self.slots@[i as int]@));
                r
            },
        }
    }
}

/// The slot of the buffer kept for `fd`, when `fd` has one.
pub fn fd_slot(fd: i32) -> (r: Option<usize>)
    ensures
        r matches Some(i) ==> 0 <= fd < MAX_FD && i == fd,
        r is None ==> !(0 <= fd < MAX_FD),
{
    if 0 <= fd && fd < MAX_FD {
        Some(fd as usize)
    } else {
        None
    }
}

} // verus!
