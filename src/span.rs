use vstd::prelude::*;

verus! {

/// Identity of a registered source file.
pub type FileId = u32;

/// A half-open byte range `[start, end)` in a registered file. A span without
/// a file identity is a placeholder and never slices text.
#[derive(Clone, Copy, Debug, PartialEq, Eq)]
pub struct Span {
    pub start: usize,
    pub end: usize,
    pub file_id: Option<FileId>,
}

impl Span {
    pub fn new(start: usize, end: usize, file_id: Option<FileId>) -> (r: Span)
        ensures
            r.start == start,
            r.end == end,
            r.file_id == file_id,
    {
        Span { start, end, file_id }
    }

    /// The placeholder span given to the entry file of a resolution pass.
    pub fn root() -> (r: Span)
        ensures
            r.start == 0,
            r.end == 0,
            r.file_id.is_none(),
    {
        Span { start: 0, end: 0, file_id: None }
    }
}

/// A span that may slice `bytes`: ordered offsets within the text, both on
/// character boundaries.
pub open spec fn span_fits(span: Span, bytes: Seq<u8>) -> bool {
    range_fits(span.start as int, span.end as int, bytes)
}

/// `[start, end)` may slice `bytes`: ordered offsets within the text, both
/// on character boundaries.
pub open spec fn range_fits(start: int, end: int, bytes: Seq<u8>) -> bool {
    &&& 0 <= start <= end <= bytes.len()
    &&& vstd::utf8::is_char_boundary(bytes, start)
    &&& vstd::utf8::is_char_boundary(bytes, end)
}

} // verus!
