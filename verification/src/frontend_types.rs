use vstd::prelude::*;

verus! {

/// A byte range `start..end` of a source file.
#[derive(Clone, Copy, PartialEq, Eq, Structural, Debug)]
pub struct Span {
    pub start: usize,
    pub end: usize,
}

impl Default for Span {
    fn default() -> (r: Span)
        ensures
            r == (Span { start: 0, end: 0 }),
    {
        Span { start: 0, end: 0 }
    }
}

/// An error found while reading a source file, with the range it concerns.
#[derive(Debug)]
pub struct ParseError {
    pub span: Span,
    pub message: String,
}

impl View for ParseError {
    type V = (Span, Seq<char>);

    open spec fn view(&self) -> (Span, Seq<char>) {
        (self.span, self.message@)
    }
}

} // verus!

use crate::ast::Program;

verus! {

/// How far the work on one source file has come.
#[derive(Debug)]
pub enum FileState {
    Pending,
    Processing,
    Done(Program),
    Failed(Vec<ParseError>),
}

} // verus!

use std::collections::VecDeque;
use crate::ast::Text;

verus! {

/// Whether a file named `t` is among `files`.
pub open spec fn has_file(files: Seq<(String, FileState)>, t: Text) -> bool {
    exists|i: int| 0 <= i < files.len() && #[trigger] files[i].0@ == t
}

/// No two files share a name.
pub open spec fn distinct_names(files: Seq<(String, FileState)>) -> bool {
    forall|i: int, j: int| 0 <= i < j < files.len() ==> files[i].0@ != files[j].0@
}

/// The position of the file named `t`, or -1.
pub open spec fn file_index(files: Seq<(String, FileState)>, t: Text) -> int
    decreases files.len(),
{
    if files.len() == 0 {
        -1
    } else if files.last().0@ == t {
        files.len() - 1
    } else {
        file_index(files.drop_last(), t)
    }
}

/// `files` with the file named `path` given `state`: the entry is replaced where
/// there is one, and added at the end where there is none.
pub open spec fn with_state(files: Seq<(String, FileState)>, path: String, state: FileState) -> Seq<(String, FileState)> {
    let i = file_index(files, path@);
    if i >= 0 {
        files.update(i, (path, state))
    } else {
        files.push((path, state))
    }
}

/// What a worker is to do next.
pub enum WorkerStep {
    /// Parse the file at this path; it is now being processed.
    Work(String),
    /// Nothing is queued, but other workers are busy and may find more files.
    Wait,
    /// Nothing is queued and nobody is busy: all is done.
    Finish,
}

/// The files of a compilation and how far each has come, the files that wait to
/// be parsed, and how many workers are busy.
pub struct DependencyTracker {
    pub files: Vec<(String, FileState)>,
    pub queue: VecDeque<String>,
    pub active_workers: usize,
}

impl DependencyTracker {
    /// The tracker is consistent: no two files share a name, and every queued path
    /// names a file.
    pub open spec fn wf(&self) -> bool {
        &&& distinct_names(self.files@)
        &&& forall|k: int| 0 <= k < self.queue@.len() ==> has_file(self.files@, #[trigger] self.queue@[k]@)
    }

    pub fn new() -> (r: Self)
        ensures
            r.files@.len() == 0,
            r.queue@.len() == 0,
            r.active_workers == 0,
            r.wf(),
    {
        DependencyTracker { files: Vec::new(), queue: VecDeque::new(), active_workers: 0 }
    }

    /// The position of the file named `path`.
    fn find(&self, path: &String) -> (r: Option<usize>)
        ensures
            r is None ==> file_index(self.files@, path@) == -1 && !has_file(self.files@, path@),
            r matches Some(i) ==> i == file_index(self.files@, path@) && i < self.files@.len(),
    {
        let mut i = self.files.len();
        assert(self.files@.take(i as int) =~= self.files@);
        while i > 0
            invariant
                i <= self.files@.len(),
                file_index(self.files@, path@) == file_index(self.files@.take(i as int), path@),
                forall|k: int| i <= k < self.files@.len() ==> self.files@[k].0@ != path@,
            decreases i,
        {
            assert(self.files@.take(i as int).drop_last() =~= self.files@.take(i - 1));
            if self.files[i - 1].0 == *path {
                return Some(i - 1);
            }
            i = i - 1;
        }
        proof {
            lemma_file_index_range(self.files@, path@);
            if has_file(self.files@, path@) {
                let k = choose|k: int| 0 <= k < self.files@.len() && #[trigger] self.files@[k].0@ == path@;
                assert(self.files@[k].0@ == path@);
            }
        }
        None
    }

    /// Registers a newly found dependency: a file not seen before is added as
    /// pending and queued. Returns whether it was new.
    pub fn add_dependency(&mut self, path: String) -> (r: bool)
        ensures
            r == !has_file(old(self).files@, path@),
            r ==> final(self).files@ == old(self).files@.push((path, FileState::Pending)),
            r ==> final(self).queue@ == old(self).queue@.push(path),
            !r ==> final(self).files@ == old(self).files@ && final(self).queue@ == old(self).queue@,
            final(self).active_workers == old(self).active_workers,
            has_file(final(self).files@, path@),
            old(self).wf() ==> final(self).wf(),
    {
        match self.find(&path) {
            Some(i) => {
                assert(self.files@[i as int].0@ == path@) by {
                    lemma_file_index_range(self.files@, path@);
                }
                false
            },
            None => {
                let ghost f0 = self.files@;
                let ghost q0 = self.queue@;
                let queued = path.clone();
                self.files.push((path, FileState::Pending));
                self.queue.push_back(queued);
                proof {
                    assert(self.files@[f0.len() as int].0@ == path@);
                    lemma_push_keeps_names(f0, (path, FileState::Pending));
                    if old(self).wf() {
                        assert forall|k: int| 0 <= k < self.queue@.len() implies has_file(self.files@, #[trigger] self.queue@[k]@) by {
                            if k < q0.len() {
                                assert(self.queue@[k] == q0[k]);
                                assert(has_file(f0, q0[k]@));
                            }
                        }
                    }
                }
                true
            },
        }
    }

    /// Gives the file named `path` the state `state`, adding it where it is new.
    pub fn set_state(&mut self, path: String, state: FileState)
        ensures
            final(self).files@ == with_state(old(self).files@, path, state),
            final(self).queue@ == old(self).queue@,
            final(self).active_workers == old(self).active_workers,
            old(self).wf() ==> final(self).wf(),
    {
        proof { lemma_with_state(self.files@, path, state); }
        match self.find(&path) {
            Some(i) => {
                let ghost f0 = self.files@;
                self.files.remove(i);
                self.files.insert(i, (path, state));
                assert(self.files@ =~= f0.update(i as int, (path, state)));
            },
            None => {
                self.files.push((path, state));
            },
        }
    }

    /// Decides what a worker does next: take the first queued file and mark it as
    /// being processed; wait while nothing is queued and others are busy; or
    /// finish when nothing is queued and nobody is busy.
    pub fn next_step(&mut self) -> (r: WorkerStep)
        requires
            old(self).active_workers < usize::MAX,
        ensures
            old(self).queue@.len() > 0 ==> (r matches WorkerStep::Work(p) && p == old(self).queue@[0]
                && final(self).queue@ == old(self).queue@.drop_first()
                && final(self).files@ == with_state(old(self).files@, p, FileState::Processing)
                && final(self).active_workers == old(self).active_workers + 1),
            old(self).queue@.len() == 0 && old(self).active_workers > 0 ==> r is Wait && *final(self) == *old(self),
            old(self).queue@.len() == 0 && old(self).active_workers == 0 ==> r is Finish && *final(self) == *old(self),
            old(self).wf() ==> final(self).wf(),
    {
        if self.queue.len() > 0 {
            match self.queue.pop_front() {
                Some(p) => {
                    proof {
                        if old(self).wf() {
                            assert forall|k: int| 0 <= k < self.queue@.len() implies has_file(self.files@, #[trigger] self.queue@[k]@) by {
                                assert(self.queue@[k] == old(self).queue@[k + 1]);
                            }
                        }
                    }
                    self.set_state(p.clone(), FileState::Processing);
                    self.active_workers = self.active_workers + 1;
                    WorkerStep::Work(p)
                },
                None => WorkerStep::Finish,
            }
        } else if self.active_workers > 0 {
            WorkerStep::Wait
        } else {
            WorkerStep::Finish
        }
    }

    /// Records what parsing the file at `path` gave: the program when there were
    /// no errors and the file could be read, else the errors. One worker fewer is
    /// busy.
    pub fn finish_file(&mut self, path: String, program: Option<Program>, errors: Vec<ParseError>, read_failed: bool)
        requires
            old(self).active_workers > 0,
            errors@.len() == 0 && !read_failed ==> program is Some,
        ensures
            final(self).active_workers == old(self).active_workers - 1,
            final(self).queue@ == old(self).queue@,
            errors@.len() == 0 && !read_failed ==> final(self).files@ == with_state(
                old(self).files@,
                path,
                FileState::Done(program.unwrap()),
            ),
            !(errors@.len() == 0 && !read_failed) ==> final(self).files@ == with_state(
                old(self).files@,
                path,
                FileState::Failed(errors),
            ),
            old(self).wf() ==> final(self).wf(),
    {
        self.active_workers = self.active_workers - 1;
        if errors.len() == 0 && !read_failed {
            match program {
                Some(p) => self.set_state(path, FileState::Done(p)),
                None => {},
            }
        } else {
            self.set_state(path, FileState::Failed(errors));
        }
    }
}

proof fn lemma_push_keeps_names(files: Seq<(String, FileState)>, entry: (String, FileState))
    ensures
        forall|t: Text| has_file(files, t) ==> has_file(#[trigger] files.push(entry), t),
        distinct_names(files) && !has_file(files, entry.0@) ==> distinct_names(files.push(entry)),
{
    assert forall|t: Text| has_file(files, t) implies has_file(#[trigger] files.push(entry), t) by {
        let k = choose|k: int| 0 <= k < files.len() && #[trigger] files[k].0@ == t;
        assert(files.push(entry)[k].0@ == t);
    }
    if distinct_names(files) && !has_file(files, entry.0@) {
        assert forall|i: int, j: int| 0 <= i < j < files.push(entry).len() implies files.push(entry)[i].0@ != files.push(entry)[j].0@ by {
            if j == files.len() {
                assert(files.push(entry)[i] == files[i]);
            }
        }
    }
}

/// Giving a file a state keeps every name there was, adds the file's own, and
/// keeps the names apart.
pub proof fn lemma_with_state(files: Seq<(String, FileState)>, path: String, state: FileState)
    ensures
        forall|t: Text| has_file(files, t) ==> has_file(#[trigger] with_state(files, path, state), t),
        has_file(with_state(files, path, state), path@),
        distinct_names(files) ==> distinct_names(with_state(files, path, state)),
{
    lemma_file_index_range(files, path@);
    let i = file_index(files, path@);
    let w = with_state(files, path, state);
    if i >= 0 {
        assert forall|t: Text| has_file(files, t) implies has_file(#[trigger] with_state(files, path, state), t) by {
            let k = choose|k: int| 0 <= k < files.len() && #[trigger] files[k].0@ == t;
            assert(w[k].0@ == t);
        }
        assert(w[i].0@ == path@);
        if distinct_names(files) {
            assert forall|a: int, b: int| 0 <= a < b < w.len() implies w[a].0@ != w[b].0@ by {
                assert(w[a].0@ == files[a].0@);
                assert(w[b].0@ == files[b].0@);
            }
        }
    } else {
        lemma_push_keeps_names(files, (path, state));
        assert(w[files.len() as int].0@ == path@);
    }
}

proof fn lemma_file_index_range(files: Seq<(String, FileState)>, t: Text)
    ensures
        -1 <= file_index(files, t) < files.len(),
        file_index(files, t) >= 0 ==> files[file_index(files, t)].0@ == t,
        file_index(files, t) == -1 ==> !has_file(files, t),
    decreases files.len(),
{
    if files.len() > 0 {
        lemma_file_index_range(files.drop_last(), t);
        if file_index(files, t) == -1 {
            assert forall|i: int| 0 <= i < files.len() implies #[trigger] files[i].0@ != t by {
                if i < files.len() - 1 {
                    assert(files.drop_last()[i] == files[i]);
                }
            }
        }
        if file_index(files.drop_last(), t) >= 0 {
            assert(files.drop_last()[file_index(files.drop_last(), t)] == files[file_index(files.drop_last(), t)]);
        }
    }
}

} // verus!

use vstd::string::StringSliceAdditionalSpecFns;
use vstd::utf8::{is_char_boundary, is_continuation_byte};

verus! {

/// Whether some file's parse failed.
pub fn has_failures(files: &Vec<(String, FileState)>) -> (r: bool)
    ensures
        r == exists|i: int| 0 <= i < files@.len() && (#[trigger] files@[i]).1 is Failed,
{
    let mut i: usize = 0;
    while i < files.len()
        invariant
            i <= files@.len(),
            forall|k: int| 0 <= k < i ==> !((#[trigger] files@[k]).1 is Failed),
        decreases files@.len() - i,
    {
        if let FileState::Failed(_) = &files[i].1 {
            assert(files@[i as int].1 is Failed);
            return true;
        }
        i = i + 1;
    }
    false
}

// ----- Where an error lies in its source -----

/// The position of the first line feed in `b`, or its length.
pub open spec fn first_newline(b: Seq<u8>) -> int
    decreases b.len(),
{
    if b.len() == 0 || b[0] == 10 {
        0
    } else {
        1 + first_newline(b.drop_first())
    }
}

/// The byte lengths of the lines of `b`, as `str::lines` gives them: a line ends
/// at a line feed, which is not part of it, nor is a carriage return just before
/// it; a last line without a line feed is kept when it is not empty.
pub open spec fn line_lengths(b: Seq<u8>) -> Seq<int>
    decreases b.len(),
{
    if b.len() == 0 {
        Seq::empty()
    } else {
        let k = first_newline(b);
        if k < 0 || k >= b.len() {
            seq![b.len() as int]
        } else {
            seq![if k > 0 && b[k - 1] == 13 { k - 1 } else { k }] + line_lengths(b.skip(k + 1))
        }
    }
}

/// The line that holds byte `start`, counting each line as its length plus one
/// from `offset` on: its number (counted from `number`), the offset where it
/// starts and its length. When no line holds it, the number is 1, the offset is
/// past all the lines, and the length is 0.
pub open spec fn line_at(lens: Seq<int>, number: int, offset: int, start: int) -> (int, int, int)
    decreases lens.len(),
{
    if lens.len() == 0 {
        (1, offset, 0)
    } else if offset + lens[0] + 1 > start {
        (number, offset, lens[0])
    } else {
        line_at(lens.drop_first(), number + 1, offset + lens[0] + 1, start)
    }
}

proof fn lemma_first_newline_range(b: Seq<u8>)
    ensures
        0 <= first_newline(b) <= b.len(),
    decreases b.len(),
{
    if b.len() > 0 && b[0] != 10 {
        lemma_first_newline_range(b.drop_first());
    }
}

proof fn lemma_line_lengths_nonneg(b: Seq<u8>)
    ensures
        forall|i: int| 0 <= i < line_lengths(b).len() ==> #[trigger] line_lengths(b)[i] >= 0,
    decreases b.len(),
{
    if b.len() > 0 {
        lemma_first_newline_range(b);
        let k = first_newline(b);
        if k < b.len() {
            lemma_line_lengths_nonneg(b.skip(k + 1));
            let first = if k > 0 && b[k - 1] == 13 { k - 1 } else { k };
            let rest = line_lengths(b.skip(k + 1));
            assert forall|i: int| 0 <= i < line_lengths(b).len() implies #[trigger] line_lengths(b)[i] >= 0 by {
                assert(line_lengths(b) == seq![first] + rest);
                if i > 0 {
                    assert(line_lengths(b)[i] == rest[i - 1]);
                }
            }
        }
    }
}

proof fn lemma_line_at_holds(lens: Seq<int>, number: int, offset: int, start: int)
    requires
        forall|i: int| 0 <= i < lens.len() ==> #[trigger] lens[i] >= 0,
        number >= 1,
        offset <= start,
    ensures
        offset <= line_at(lens, number, offset, start).1 <= start,
        line_at(lens, number, offset, start).0 >= 1,
        line_at(lens, number, offset, start).2 >= 0,
        start <= line_at(lens, number, offset, start).1 + line_at(lens, number, offset, start).2 || (line_at(
            lens,
            number,
            offset,
            start,
        ).0 == 1 && line_at(lens, number, offset, start).2 == 0),
    decreases lens.len(),
{
    if lens.len() > 0 && offset + lens[0] + 1 <= start {
        assert(lens[0] >= 0);
        assert forall|i: int| 0 <= i < lens.drop_first().len() implies #[trigger] lens.drop_first()[i] >= 0 by {
            assert(lens.drop_first()[i] == lens[i + 1]);
        }
        lemma_line_at_holds(lens.drop_first(), number + 1, offset + lens[0] + 1, start);
    }
}

/// The line that an error is located on holds its start: the line begins at or
/// before the start, and the start lies within the line or at its end, so that
/// an error just after a line feed is on the next line, at its first column.
/// Only a start past every line is placed on line 1 with no length, after all
/// the lines.
pub proof fn lemma_error_line_holds_start(b: Seq<u8>, start: int)
    requires
        start >= 0,
    ensures
        line_at(line_lengths(b), 1, 0, start).1 <= start,
        line_at(line_lengths(b), 1, 0, start).0 >= 1,
        start <= line_at(line_lengths(b), 1, 0, start).1 + line_at(line_lengths(b), 1, 0, start).2 || (line_at(
            line_lengths(b),
            1,
            0,
            start,
        ).0 == 1 && line_at(line_lengths(b), 1, 0, start).2 == 0),
{
    lemma_line_lengths_nonneg(b);
    lemma_line_at_holds(line_lengths(b), 1, 0, start);
}

/// How many characters begin among the bytes: those that are not continuation
/// bytes.
pub open spec fn char_count(b: Seq<u8>) -> int
    decreases b.len(),
{
    if b.len() == 0 {
        0
    } else {
        char_count(b.drop_last()) + if is_continuation_byte(b.last()) { 0int } else { 1int }
    }
}

/// Where an error lies: its line number, the byte range of that line, its column
/// (counted in characters from 0) and how many characters to mark.
#[derive(Debug)]
pub struct ErrorLocation {
    pub line_number: usize,
    pub line_start: usize,
    pub line_len: usize,
    pub column: usize,
    pub width: usize,
}

/// The location of the range `span` in the bytes `b` of a source.
pub open spec fn location_of(b: Seq<u8>, span: Span) -> (int, int, int, int, int) {
    let (number, ls, len) = line_at(line_lengths(b), 1, 0, span.start as int);
    let column = char_count(b.subrange(ls, span.start as int));
    let width = if span.end > span.start {
        let end = if span.end < ls + len { span.end as int } else { ls + len };
        let c = char_count(b.subrange(span.start as int, end));
        if c >= 1 { c } else { 1 }
    } else {
        1
    };
    (number, ls, len, column, width)
}

/// The byte ranges that locating an error slices out of its source are well
/// placed: from the start of the error's line to its start, and from its start
/// to its end or the end of the line.
pub open spec fn locatable(b: Seq<u8>, span: Span) -> bool {
    let (number, ls, len) = line_at(line_lengths(b), 1, 0, span.start as int);
    let end = if span.end < ls + len { span.end as int } else { ls + len };
    &&& ls <= span.start <= b.len()
    &&& is_char_boundary(b, ls)
    &&& is_char_boundary(b, span.start as int)
    &&& span.end > span.start ==> span.start <= end <= b.len() && is_char_boundary(b, end)
}

/// How many characters begin among `b[from..to]`.
fn count_chars(b: &[u8], from: usize, to: usize) -> (r: usize)
    requires
        from <= to <= b@.len(),
    ensures
        r == char_count(b@.subrange(from as int, to as int)),
        r <= to - from,
{
    let mut count: usize = 0;
    let mut i = from;
    assert(b@.subrange(from as int, from as int) =~= Seq::<u8>::empty());
    while i < to
        invariant
            from <= i <= to <= b@.len(),
            count == char_count(b@.subrange(from as int, i as int)),
            count <= i - from,
        decreases to - i,
    {
        assert(b@.subrange(from as int, i + 1).drop_last() =~= b@.subrange(from as int, i as int));
        assert(b@.subrange(from as int, i + 1).last() == b@[i as int]);
        let x = b[i];
        if !(0x80 <= x && x <= 0xbf) {
            count = count + 1;
        }
        i = i + 1;
    }
    count
}

/// The position of the first line feed in `b` from `pos` on, or the length of `b`.
fn next_newline(b: &[u8], pos: usize) -> (k: usize)
    requires
        pos <= b@.len(),
    ensures
        k == pos + first_newline(b@.skip(pos as int)),
        pos <= k <= b@.len(),
        k < b@.len() ==> b@[k as int] == 10,
{
    let mut k = pos;
    assert(b@.skip(pos as int) =~= b@.skip(k as int));
    while k < b.len() && b[k] != 10
        invariant
            pos <= k <= b@.len(),
            first_newline(b@.skip(pos as int)) == (k - pos) + first_newline(b@.skip(k as int)),
        decreases b@.len() - k,
    {
        assert(b@.skip(k as int).drop_first() =~= b@.skip(k + 1));
        assert(b@.skip(k as int)[0] == b@[k as int]);
        k = k + 1;
    }
    if k < b.len() {
        assert(b@.skip(k as int)[0] == b@[k as int]);
    }
    k
}

/// The line of `b` that holds byte `start`: its number, start offset and length.
fn find_line(b: &[u8], start: usize) -> (r: (usize, usize, usize))
    requires
        b@.len() + 2 <= usize::MAX,
    ensures
        line_at(line_lengths(b@), 1, 0, start as int) == (r.0 as int, r.1 as int, r.2 as int),
        r.1 + r.2 <= b@.len() + 1,
{
    let ghost bs = b@;
    let n = b.len();
    let mut pos: usize = 0;
    let mut number: usize = 1;
    let mut offset: usize = 0;
    let mut found = false;
    let mut line_len: usize = 0;
    assert(bs.skip(0) =~= bs);
    while pos < n && !found
        invariant
            bs == b@,
            n == bs.len(),
            n + 2 <= usize::MAX,
            pos <= n,
            offset <= pos + 1,
            pos < n ==> offset <= pos,
            found ==> offset + line_len <= n,
            1 <= number <= pos + 1,
            !found ==> line_at(line_lengths(bs), 1, 0, start as int) == line_at(
                line_lengths(bs.skip(pos as int)),
                number as int,
                offset as int,
                start as int,
            ),
            found ==> line_at(line_lengths(bs), 1, 0, start as int) == (number as int, offset as int, line_len as int),
        decreases n - pos + (if found { 0int } else { 1int }),
    {
        let ghost rest = bs.skip(pos as int);
        let k = next_newline(b, pos);
        let len = if k >= n {
            n - pos
        } else if k > pos && b[k - 1] == 13 {
            k - pos - 1
        } else {
            k - pos
        };
        proof {
            if k < n {
                assert(rest.skip(k - pos + 1) =~= bs.skip(k + 1));
                if k > pos {
                    assert(rest[k - pos - 1] == bs[k - 1]);
                }
                assert(line_lengths(rest) == seq![len as int] + line_lengths(bs.skip(k + 1)));
                assert((seq![len as int] + line_lengths(bs.skip(k + 1))).drop_first() =~= line_lengths(bs.skip(k + 1)));
            } else {
                assert(line_lengths(rest) == seq![len as int]);
                assert(seq![len as int].drop_first() =~= Seq::<int>::empty());
                assert(bs.skip(n as int) =~= Seq::<u8>::empty());
            }
        }
        if offset + len + 1 > start {
            found = true;
            line_len = len;
        } else {
            offset = offset + len + 1;
            number = number + 1;
            pos = if k >= n {
                n
            } else {
                k + 1
            };
        }
    }
    if !found {
        assert(bs.skip(pos as int) =~= Seq::<u8>::empty());
        number = 1;
        line_len = 0;
    }
    (number, offset, line_len)
}

impl ParseError {
    /// Whether the error can be located in `source`: the ranges that locating it
    /// slices out lie on character boundaries.
    pub fn can_locate(&self, source: &str) -> (r: bool)
        requires
            source.spec_bytes().len() + 2 <= usize::MAX,
        ensures
            r == locatable(source.spec_bytes(), self.span),
    {
        let b = source.as_bytes();
        let n = b.len();
        let start = self.span.start;
        let (_, line_start, line_len) = find_line(b, start);
        if !(line_start <= start && start <= n) {
            return false;
        }
        if !source.is_char_boundary(line_start) || !source.is_char_boundary(start) {
            return false;
        }
        if self.span.end > start {
            let end = if self.span.end < line_start + line_len {
                self.span.end
            } else {
                line_start + line_len
            };
            start <= end && end <= n && source.is_char_boundary(end)
        } else {
            true
        }
    }

    /// Where the error lies in `source`: the number of the line that holds its
    /// start, counted from 1, with that line's byte range; its column in
    /// characters; and how many characters it covers on that line, at least one.
    /// Lines are counted as `str::lines` gives them, each with one byte for its
    /// line feed.
    pub fn locate(&self, source: &str) -> (r: ErrorLocation)
        requires
            locatable(source.spec_bytes(), self.span),
            source.spec_bytes().len() + 2 <= usize::MAX,
        ensures
            location_of(source.spec_bytes(), self.span) == (
                r.line_number as int,
                r.line_start as int,
                r.line_len as int,
                r.column as int,
                r.width as int,
            ),
    {
        let b = source.as_bytes();
        let start = self.span.start;
        let (number, offset, line_len) = find_line(b, start);
        let line_start = offset;
        let column = count_chars(b, line_start, start);
        let width = if self.span.end > start {
            let end = if self.span.end < line_start + line_len {
                self.span.end
            } else {
                line_start + line_len
            };
            let c = count_chars(b, start, end);
            if c >= 1 {
                c
            } else {
                1
            }
        } else {
            1
        };
        ErrorLocation { line_number: number, line_start, line_len, column, width }
    }
}

} // verus!

verus! {

/// Whether no two files share a name.
pub fn names_distinct(files: &Vec<(String, FileState)>) -> (r: bool)
    ensures
        r == distinct_names(files@),
{
    let mut j: usize = 0;
    while j < files.len()
        invariant
            j <= files@.len(),
            forall|a: int, b: int| 0 <= a < b < j ==> files@[a].0@ != files@[b].0@,
        decreases files@.len() - j,
    {
        let mut i: usize = 0;
        while i < j
            invariant
                i <= j < files@.len(),
                forall|a: int| 0 <= a < i ==> files@[a].0@ != files@[j as int].0@,
            decreases j - i,
        {
            if files[i].0 == files[j].0 {
                return false;
            }
            i = i + 1;
        }
        j = j + 1;
    }
    true
}

} // verus!
