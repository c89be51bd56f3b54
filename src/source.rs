use vstd::prelude::*;

use crate::span::{range_fits, span_fits, FileId, Span};
use vstd::string::StringSliceAdditionalSpecFns;

verus! {

/// The UTF-8 bytes of a text.
pub open spec fn bytes_of(text: Seq<char>) -> Seq<u8> {
    vstd::utf8::encode_utf8(text)
}

/// The offsets just past each `'\n'` among the first `n` bytes, ascending.
pub open spec fn newline_ends(bytes: Seq<u8>, n: nat) -> Seq<int>
    decreases n,
{
    if n == 0 {
        seq![]
    } else {
        let before = newline_ends(bytes, (n - 1) as nat);
        if bytes[n - 1] == 10u8 {
            before.push(n as int)
        } else {
            before
        }
    }
}

/// The byte offset at which each line of `bytes` starts.
pub open spec fn line_starts_of(bytes: Seq<u8>) -> Seq<int> {
    seq![0int] + newline_ends(bytes, bytes.len())
}

/// A table of line starts as offsets: it starts at 0, strictly increases and
/// stays within `len`.
pub open spec fn is_line_table(starts: Seq<int>, len: int) -> bool {
    &&& starts.len() >= 1
    &&& starts[0] == 0
    &&& forall|i: int, j: int| 0 <= i < j < starts.len() ==> starts[i] < starts[j]
    &&& forall|i: int| 0 <= i < starts.len() ==> 0 <= #[trigger] starts[i] <= len
}

/// `line` is the last line whose start is at or before `offset`.
pub open spec fn is_line_of(starts: Seq<int>, offset: int, line: int) -> bool {
    &&& 0 <= line < starts.len()
    &&& starts[line] <= offset
    &&& (line + 1 == starts.len() || offset < starts[line + 1])
}

/// The start of line `line`, where one past the last line starts at the end
/// of the text.
pub open spec fn line_start_of(starts: Seq<int>, len: int, line: int) -> int {
    if line < starts.len() {
        starts[line]
    } else {
        len
    }
}

/// The end of line `line`: the start of the next line, or the end of the text.
pub open spec fn line_end_of(starts: Seq<int>, len: int, line: int) -> int {
    if line + 1 < starts.len() {
        starts[line + 1]
    } else {
        len
    }
}

proof fn lemma_newline_ends(bytes: Seq<u8>, n: nat)
    requires
        n <= bytes.len(),
    ensures
        forall|i: int|
            0 <= i < newline_ends(bytes, n).len() ==> 1 <= #[trigger] newline_ends(bytes, n)[i]
                <= n,
        forall|i: int, j: int|
            0 <= i < j < newline_ends(bytes, n).len() ==> newline_ends(bytes, n)[i]
                < newline_ends(bytes, n)[j],
    decreases n,
{
    if n > 0 {
        let before = newline_ends(bytes, (n - 1) as nat);
        lemma_newline_ends(bytes, (n - 1) as nat);
        if bytes[n - 1] == 10u8 {
            let s = before.push(n as int);
            assert forall|i: int| 0 <= i < before.len() implies s[i] == before[i] by {}
        }
    }
}

/// The line table of any text starts at 0, strictly increases and never
/// passes the end of the text.
pub proof fn lemma_line_starts_table(bytes: Seq<u8>)
    ensures
        is_line_table(line_starts_of(bytes), bytes.len() as int),
{
    lemma_newline_ends(bytes, bytes.len());
    let s = line_starts_of(bytes);
    let t = newline_ends(bytes, bytes.len());
    assert forall|i: int, j: int| 0 <= i < j < s.len() implies s[i] < s[j] by {
        if i > 0 {
            assert(s[i] == t[i - 1]);
        }
        assert(s[j] == t[j - 1]);
    }
    assert forall|i: int| 0 <= i < s.len() implies 0 <= #[trigger] s[i] <= bytes.len() by {
        if i > 0 {
            assert(s[i] == t[i - 1]);
        }
    }
}

/// In a line table, the start of line `i` lies on line `i`.
pub proof fn lemma_line_of_line_start(starts: Seq<int>, len: int, i: int)
    requires
        is_line_table(starts, len),
        0 <= i < starts.len(),
    ensures
        is_line_of(starts, starts[i], i),
{
    if i + 1 < starts.len() {
        assert(starts[i] < starts[i + 1]);
    }
}

/// A line in a line table holds one offset at most once.
pub proof fn lemma_line_of_unique(starts: Seq<int>, len: int, offset: int, a: int, b: int)
    requires
        is_line_table(starts, len),
        is_line_of(starts, offset, a),
        is_line_of(starts, offset, b),
    ensures
        a == b,
{
    if a < b {
        assert(starts[a + 1] <= starts[b]);
    } else if b < a {
        assert(starts[b + 1] <= starts[a]);
    }
}

/// The text of bytes `[start, end)` of `text`, where that range fits the
/// text (ordered, in bounds, on character boundaries); `None` otherwise.
pub fn slice_text(text: &str, start: usize, end: usize) -> (r: Option<&str>)
    ensures
        r is Some <==> range_fits(start as int, end as int, bytes_of(text@)),
        r matches Some(s) ==> bytes_of(s@) == bytes_of(text@).subrange(start as int, end as int),
{
    let len = text.as_bytes().len();
    if start <= end && end <= len && text.is_char_boundary(start)
        && text.is_char_boundary(end) {
        let ghost b = bytes_of(text@);
        let (_, rest) = text.split_at(start);
        let ghost rb = rest.spec_bytes();
        proof {
            vstd::utf8::encode_utf8_valid_utf8(text@);
            vstd::utf8::valid_utf8_split(b, start as int);
            assert(rb == b.subrange(start as int, b.len() as int));
            if end < b.len() {
                vstd::utf8::is_char_boundary_iff_not_is_continuation_byte(b, end as int);
                vstd::utf8::is_char_boundary_iff_not_is_continuation_byte(rb, end - start);
            } else {
                vstd::utf8::is_char_boundary_start_end_of_seq(rb);
            }
        }
        let (mid, _) = rest.split_at(end - start);
        assert(mid.spec_bytes() =~= b.subrange(start as int, end as int));
        Some(mid)
    } else {
        assert(!range_fits(start as int, end as int, bytes_of(text@)));
        None
    }
}

/// Whether two texts are equal, compared byte by byte.
pub fn same_text(a: &str, b: &str) -> (r: bool)
    ensures
        r == (a@ == b@),
{
    let x = a.as_bytes();
    let y = b.as_bytes();
    proof {
        vstd::utf8::encode_utf8_decode_utf8(a@);
        vstd::utf8::encode_utf8_decode_utf8(b@);
    }
    if x.len() != y.len() {
        return false;
    }
    let mut i: usize = 0;
    while i < x.len()
        invariant
            x@ == bytes_of(a@),
            y@ == bytes_of(b@),
            x@.len() == y@.len(),
            i <= x@.len(),
            forall|j: int| 0 <= j < i ==> x@[j] == y@[j],
        decreases x@.len() - i,
    {
        if x[i] != y[i] {
            return false;
        }
        i += 1;
    }
    assert(x@ =~= y@);
    true
}

/// A span fits the text of `file`.
pub open spec fn range_fits_file(file: File, span: Span) -> bool {
    span_fits(span, file.bytes())
}

/// Error of a line-table lookup.
#[derive(Clone, Copy, Debug, PartialEq, Eq)]
pub enum LineError {
    /// The line index is past the last line; `max` is the last valid line.
    LineTooLarge { given: usize, max: usize },
}

/// Relies on codespan_reporting::files::line_starts: offset 0, then the byte
/// offset just past each `'\n'` of the text, in order.
#[verifier::external_body]
fn compute_line_starts(source: &str) -> (r: Vec<usize>)
    ensures
        r@.map_values(|x: usize| x as int) == line_starts_of(bytes_of(source@)),
{
    codespan_reporting::files::line_starts(source).collect()
}

/// A registered source file with its precomputed line table.
#[derive(Clone, Debug)]
pub struct File {
    id: FileId,
    path: String,
    source: String,
    name: String,
    line_starts: Vec<usize>,
}

impl File {
    pub closed spec fn spec_id(&self) -> FileId {
        self.id
    }

    pub closed spec fn spec_path(&self) -> Seq<char> {
        self.path@
    }

    pub closed spec fn spec_name(&self) -> Seq<char> {
        self.name@
    }

    pub closed spec fn spec_source(&self) -> Seq<char> {
        self.source@
    }

    pub closed spec fn spec_line_starts(&self) -> Seq<int> {
        self.line_starts@.map_values(|x: usize| x as int)
    }

    /// The bytes of the file's text.
    pub open spec fn bytes(&self) -> Seq<u8> {
        bytes_of(self.spec_source())
    }

    /// Length of the file's text in bytes.
    pub open spec fn len(&self) -> int {
        self.bytes().len() as int
    }

    pub open spec fn wf(&self) -> bool {
        &&& self.spec_line_starts() == line_starts_of(self.bytes())
        &&& self.bytes().len() <= usize::MAX
    }

    /// Create a new source file; its display name is its path.
    pub fn new(id: FileId, path: String, source: String) -> (r: File)
        ensures
            r.wf(),
            r.spec_id() == id,
            r.spec_path() == path@,
            r.spec_name() == path@,
            r.spec_source() == source@,
            is_line_table(r.spec_line_starts(), r.len()),
    {
        let text_len = source.as_str().as_bytes().len();
        let line_starts = compute_line_starts(source.as_str());
        let name = path.clone();
        let r = File { id, path, source, name, line_starts };
        proof {
            lemma_line_starts_table(r.bytes());
        }
        r
    }

    pub fn path(&self) -> (r: &str)
        ensures
            r@ == self.spec_path(),
    {
        self.path.as_str()
    }

    pub fn id(&self) -> (r: FileId)
        ensures
            r == self.spec_id(),
    {
        self.id
    }

    /// Return the name of the file.
    pub fn name(&self) -> (r: &str)
        ensures
            r@ == self.spec_name(),
    {
        self.name.as_str()
    }

    /// Return the source of the file.
    pub fn source(&self) -> (r: &str)
        ensures
            r@ == self.spec_source(),
    {
        self.source.as_str()
    }

    /// Number of lines in the line table.
    pub fn line_count(&self) -> (r: usize)
        ensures
            r == self.spec_line_starts().len(),
    {
        self.line_starts.len()
    }

    /// The start of line `line`, which must exist.
    pub fn line_starts_at(&self, line: usize) -> (r: usize)
        requires
            line < self.spec_line_starts().len(),
        ensures
            r == self.spec_line_starts()[line as int],
    {
        self.line_starts[line]
    }

    /// Return the starting byte index of the line with the specified line
    /// index; one past the last line starts at the end of the text.
    pub fn line_start(&self, line_index: usize) -> (r: Result<usize, LineError>)
        requires
            self.wf(),
        ensures
            line_index <= self.spec_line_starts().len() ==> r == Ok::<usize, LineError>(
                line_start_of(self.spec_line_starts(), self.len(), line_index as int) as usize,
            ),
            line_index > self.spec_line_starts().len() ==> r == Err::<usize, LineError>(
                LineError::LineTooLarge {
                    given: line_index,
                    max: (self.spec_line_starts().len() - 1) as usize,
                },
            ),
    {
        proof {
            lemma_line_starts_table(self.bytes());
        }
        let n = self.line_starts.len();
        if line_index < n {
            Ok(self.line_starts[line_index])
        } else if line_index == n {
            Ok(self.source.as_str().len())
        } else {
            Err(LineError::LineTooLarge { given: line_index, max: n - 1 })
        }
    }

    /// The line holding byte `byte_index`: the last line starting at or
    /// before it, so offsets past the end fall on the last line.
    pub fn line_index(&self, _files: (), byte_index: usize) -> (r: Result<usize, LineError>)
        requires
            self.wf(),
        ensures
            r matches Ok(line) && is_line_of(self.spec_line_starts(), byte_index as int, line as int),
    {
        proof {
            lemma_line_starts_table(self.bytes());
        }
        let ghost starts = self.spec_line_starts();
        let mut lo: usize = 0;
        let mut hi: usize = self.line_starts.len();
        while hi - lo > 1
            invariant
                starts == self.spec_line_starts(),
                is_line_table(starts, self.len()),
                hi <= starts.len(),
                lo < hi,
                starts[lo as int] <= byte_index,
                hi == starts.len() || byte_index < starts[hi as int],
            decreases hi - lo,
        {
            let mid = lo + (hi - lo) / 2;
            if self.line_starts[mid] <= byte_index {
                lo = mid;
            } else {
                hi = mid;
            }
        }
        Ok(lo)
    }

    /// The byte range `[start, end)` of a line, where the end is the start of
    /// the next line or the end of the text; a line index at or past the
    /// number of lines is refused.
    pub fn line_range(&self, _files: (), line_index: usize) -> (r: Result<(usize, usize), LineError>)
        requires
            self.wf(),
        ensures
            line_index < self.spec_line_starts().len() ==> r == Ok::<(usize, usize), LineError>(
                (
                    self.spec_line_starts()[line_index as int] as usize,
                    line_end_of(self.spec_line_starts(), self.len(), line_index as int) as usize,
                ),
            ),
            line_index >= self.spec_line_starts().len() ==> r == Err::<(usize, usize), LineError>(
                LineError::LineTooLarge {
                    given: line_index,
                    max: (self.spec_line_starts().len() - 1) as usize,
                },
            ),
    {
        proof {
            lemma_line_starts_table(self.bytes());
        }
        let n = self.line_starts.len();
        if line_index >= n {
            return Err(LineError::LineTooLarge { given: line_index, max: n - 1 });
        }
        proof {
            lemma_line_starts_table(self.bytes());
        }
        let start = self.line_starts[line_index];
        let end = if line_index < n - 1 {
            self.line_starts[line_index + 1]
        } else {
            self.source.as_str().len()
        };
        Ok((start, end))
    }
}

} // verus!
