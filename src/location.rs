//! Line and column of a byte offset of the source, for diagnostics.
use vstd::prelude::*;
use vstd::string::StringSliceAdditionalSpecFns;
use vstd::utf8::*;

use crate::lexer::{lemma_ascii_boundary, slice_text};

verus! {

broadcast use {vstd::utf8::group_utf8_lib, vstd::string::group_string_axioms};

/// The number of line breaks among the bytes before offset `i`: the line of `i`, from 0.
pub open spec fn line_number(b: Seq<u8>, i: int) -> nat
    decreases i,
{
    if i <= 0 {
        0
    } else if b[i - 1] == '\n' as u8 {
        line_number(b, i - 1) + 1
    } else {
        line_number(b, i - 1)
    }
}

/// The offset where the line of offset `i` starts.
pub open spec fn line_start(b: Seq<u8>, i: int) -> int
    decreases i,
{
    if i <= 0 {
        0
    } else if b[i - 1] == '\n' as u8 {
        i
    } else {
        line_start(b, i - 1)
    }
}

/// One line of the source: its text without the line break, and the offsets
/// `start .. end` that belong to it (its text and its line break).
#[derive(Debug, PartialEq)]
pub struct SkLine {
    pub content: String,
    pub start: usize,
    pub end: usize,
}

impl SkLine {
    pub fn new(start: usize, end: usize, content: String) -> (r: SkLine)
        ensures
            r.start == start,
            r.end == end,
            r.content == content,
    {
        SkLine { content, start, end }
    }

    /// The column of offset `idx` on this line, from 0.
    pub fn column(&self, idx: usize) -> (r: usize)
        requires
            self.start <= idx,
        ensures
            r == idx - self.start,
    {
        idx - self.start
    }
}

/// A source text cut into lines.
pub struct SkFile {
    lines: Vec<SkLine>,
    nlines: usize,
    src: Ghost<Seq<u8>>,
}

/// Line `i` of `b` covers `l.start .. l.end`: every offset there is on line `i`,
/// in a line that starts at `l.start`.
#[verifier::opaque]
pub open spec fn covers(b: Seq<u8>, l: SkLine, i: int) -> bool {
    &&& l.start < l.end
    &&& forall|x: int| l.start <= x < l.end ==> #[trigger] line_number(b, x) == i
    &&& forall|x: int| l.start <= x < l.end ==> #[trigger] line_start(b, x) == l.start
}

/// The text of `l` is the bytes of its offsets but the last: its line break,
/// or, on the last line, the offset past the end.
pub open spec fn has_text(b: Seq<u8>, l: SkLine) -> bool {
    encode_utf8(l.content@) == b.subrange(l.start as int, l.end - 1)
}

proof fn lemma_same_line(b: Seq<u8>, s: int, x: int)
    requires
        0 <= s <= x <= b.len(),
        s == 0 || b[s - 1] == '\n' as u8,
        forall|y: int| s <= y < x ==> b[y] != '\n' as u8,
    ensures
        line_number(b, x) == line_number(b, s),
        line_start(b, x) == s,
    decreases x - s,
{
    if x > s {
        lemma_same_line(b, s, x - 1);
    }
}

impl SkFile {
    /// The source bytes.
    pub closed spec fn bytes(&self) -> Seq<u8> {
        self.src@
    }

    pub closed spec fn wf(&self) -> bool {
        let b = self.src@;
        &&& self.nlines == self.lines@.len()
        &&& self.lines@.len() >= 1
        &&& self.lines@[0].start == 0
        &&& self.lines@.last().end == b.len() + 1
        &&& forall|i: int|
            0 <= i < self.lines@.len() - 1 ==> (#[trigger] self.lines@[i]).end
                == self.lines@[i + 1].start
        &&& forall|i: int| 0 <= i < self.lines@.len() ==> covers(b, #[trigger] self.lines@[i], i)
        &&& forall|i: int|
            0 <= i < self.lines@.len() ==> (#[trigger] self.lines@[i]).end <= b.len() + 1
        &&& forall|i: int| 0 <= i < self.lines@.len() ==> has_text(b, #[trigger] self.lines@[i])
    }

    /// Cuts `src` at its line breaks; the last line also holds the offset
    /// just past the end of the text.
    pub fn new(src: &String) -> (r: SkFile)
        requires
            encode_utf8(src@).len() < usize::MAX,
        ensures
            r.wf(),
            r.bytes() == encode_utf8(src@),
    {
        let text = src.as_str();
        let b = text.as_bytes();
        let mut lines: Vec<SkLine> = Vec::new();
        let mut start: usize = 0;
        let mut i: usize = 0;
        while i < b.len()
            invariant
                b@ == text.spec_bytes(),
                b@.len() < usize::MAX,
                0 <= start <= i <= b@.len(),
                start == 0 || b@[start - 1] == '\n' as u8,
                forall|y: int| start <= y < i ==> b@[y] != '\n' as u8,
                lines@.len() == line_number(b@, start as int),
                lines@.len() == 0 ==> start == 0,
                lines@.len() > 0 ==> lines@[0].start == 0 && lines@.last().end == start,
                forall|j: int|
                    0 <= j < lines@.len() - 1 ==> (#[trigger] lines@[j]).end == lines@[j + 1].start,
                forall|j: int| 0 <= j < lines@.len() ==> covers(b@, #[trigger] lines@[j], j),
                forall|j: int| 0 <= j < lines@.len() ==> (#[trigger] lines@[j]).end <= start,
                forall|j: int| 0 <= j < lines@.len() ==> has_text(b@, #[trigger] lines@[j]),
            decreases b.len() - i,
        {
            if b[i] == '\n' as u8 {
                proof {
                    lemma_ascii_boundary(b@, start as int);
                    lemma_ascii_boundary(b@, i as int);
                    assert forall|x: int|
                        #![trigger line_number(b@, x)]
                        #![trigger line_start(b@, x)]
                        start <= x < i + 1 implies line_number(b@, x) == lines@.len()
                            && line_start(b@, x) == start by {
                        lemma_same_line(b@, start as int, x);
                    }
                    lemma_same_line(b@, start as int, i as int);
                }
                let line = SkLine::new(start, i + 1, slice_text(text, start, i));
                let ghost before = lines@;
                proof {
                    reveal(covers);
                    assert(line.start == start && line.end == i + 1);
                    assert(line.start < line.end);
                    assert(covers(b@, line, before.len() as int));
                }
                lines.push(line);
                assert(forall|j: int| 0 <= j < before.len() ==> lines@[j] == before[j]);
                start = i + 1;
            }
            i = i + 1;
        }
        proof {
            lemma_ascii_boundary(b@, start as int);
            lemma_ascii_boundary(b@, b@.len() as int);
            assert forall|x: int|
                #![trigger line_number(b@, x)]
                #![trigger line_start(b@, x)]
                start <= x < b@.len() + 1 implies line_number(b@, x) == lines@.len() && line_start(
                    b@,
                    x,
                ) == start by {
                lemma_same_line(b@, start as int, x);
            }
        }
        let line = SkLine::new(start, b.len() + 1, slice_text(text, start, b.len()));
        let ghost before = lines@;
        proof {
            reveal(covers);
            assert(covers(b@, line, before.len() as int));
        }
        lines.push(line);
        assert(forall|j: int| 0 <= j < before.len() ==> lines@[j] == before[j]);
        let nlines = lines.len();
        SkFile { lines, nlines, src: Ghost(b@) }
    }

    proof fn lemma_on_line(&self, i: int, x: int)
        requires
            self.wf(),
            0 <= i < self.lines@.len(),
            self.lines@[i].start <= x < self.lines@[i].end,
        ensures
            line_number(self.src@, x) == i,
            line_start(self.src@, x) == self.lines@[i].start,
    {
        assert(covers(self.src@, self.lines@[i], i));
        reveal(covers);
    }

    /// The column and the line, both from 0, of offset `idx`; `None` past the
    /// end of the text.
    pub fn pos(&self, idx: usize) -> (r: Option<(usize, usize)>)
        requires
            self.wf(),
        ensures
            idx <= self.bytes().len() ==> r == Some(
                (
                    (idx - line_start(self.bytes(), idx as int)) as usize,
                    line_number(self.bytes(), idx as int) as usize,
                ),
            ),
            idx > self.bytes().len() ==> r is None,
    {
        let mut i: usize = 0;
        while i < self.lines.len()
            invariant
                self.wf(),
                0 <= i <= self.lines@.len(),
                i < self.lines@.len() ==> self.lines@[i as int].start <= idx,
                i == self.lines@.len() ==> idx >= self.bytes().len() + 1,
            decreases self.lines.len() - i,
        {
            let line = &self.lines[i];
            if line.start <= idx && idx < line.end {
                proof {
                    self.lemma_on_line(i as int, idx as int);
                }
                return Some((line.column(idx), i));
            }
            assert(i + 1 < self.lines@.len() ==> self.lines@[i as int].end
                == self.lines@[i + 1].start);
            i = i + 1;
        }
        None
    }
}

} // verus!
