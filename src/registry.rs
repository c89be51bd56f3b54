use vstd::prelude::*;

use crate::source::{bytes_of, is_line_table, range_fits_file, same_text, slice_text, File};
use crate::span::{FileId, Span};

verus! {

/// The registered files of a compilation session, indexed by `FileId`.
/// Files are only ever added; each path is registered at most once.
pub struct SourceRegistry {
    files: Vec<File>,
}

impl View for SourceRegistry {
    type V = Seq<File>;

    closed spec fn view(&self) -> Seq<File> {
        self.files@
    }
}

/// The text that `span` selects in the files `files`, when it may slice it.
pub open spec fn slice_of(files: Seq<File>, span: Span) -> Option<Seq<u8>> {
    match span.file_id {
        Some(id) => if id < files.len() && range_fits_file(files[id as int], span) {
            Some(files[id as int].bytes().subrange(span.start as int, span.end as int))
        } else {
            None
        },
        None => None,
    }
}

/// The index of the file registered under `path`, if any.
pub open spec fn has_path(files: Seq<File>, path: Seq<char>, id: int) -> bool {
    0 <= id < files.len() && files[id].spec_path() == path
}

/// `after` is `before` with `source` registered under `path` as `id`: a
/// path seen before keeps its identity and leaves the files as they were;
/// a new path gets the next identity.
pub open spec fn registered(
    before: Seq<File>,
    path: Seq<char>,
    source: Seq<char>,
    after: Seq<File>,
    id: FileId,
) -> bool {
    &&& has_path(after, path, id as int)
    &&& (exists|i: int| has_path(before, path, i)) ==> after == before
    &&& !(exists|i: int| has_path(before, path, i)) ==> {
        &&& id == before.len()
        &&& after.len() == before.len() + 1
        &&& after.subrange(0, id as int) == before
        &&& after[id as int].spec_source() == source
        &&& after[id as int].spec_name() == path
    }
}

impl SourceRegistry {
    pub open spec fn wf(&self) -> bool {
        &&& self@.len() <= u32::MAX
        &&& forall|i: int| 0 <= i < self@.len() ==> #[trigger] self@[i].wf()
        &&& forall|i: int| 0 <= i < self@.len() ==> #[trigger] self@[i].spec_id() == i
        &&& forall|i: int| 0 <= i < self@.len() ==> is_line_table(
            #[trigger] self@[i].spec_line_starts(),
            self@[i].len(),
        )
        &&& forall|i: int, j: int|
            0 <= i < j < self@.len() ==> self@[i].spec_path() != self@[j].spec_path()
    }

    pub fn new() -> (r: SourceRegistry)
        ensures
            r.wf(),
            r@.len() == 0,
    {
        SourceRegistry { files: Vec::new() }
    }

    /// Number of registered files.
    pub fn len(&self) -> (r: usize)
        ensures
            r == self@.len(),
    {
        self.files.len()
    }

    /// The identity of the file registered under `path`, if any.
    pub fn visit(&self, path: &str) -> (r: Option<FileId>)
        requires
            self.wf(),
        ensures
            r matches Some(id) ==> has_path(self@, path@, id as int),
            r is None ==> forall|i: int| !has_path(self@, path@, i),
    {
        let mut i: usize = 0;
        while i < self.files.len()
            invariant
                self.wf(),
                i <= self@.len(),
                forall|j: int| 0 <= j < i ==> !has_path(self@, path@, j),
            decreases self@.len() - i,
        {
            if same_text(self.files[i].path(), path) {
                return Some(i as FileId);
            }
            i += 1;
        }
        None
    }

    /// Register `source` under `path`. A path registered before keeps its
    /// identity and its text, and the registry is left as it was.
    pub fn register(&mut self, path: String, source: String) -> (r: FileId)
        requires
            old(self).wf(),
            old(self)@.len() < u32::MAX,
        ensures
            final(self).wf(),
            registered(old(self)@, path@, source@, final(self)@, r),
    {
        match self.visit(path.as_str()) {
            Some(id) => id,
            None => {
                let id = self.files.len() as FileId;
                let file = File::new(id, path, source);
                let ghost added = file;
                self.files.push(file);
                assert(self@ == old(self)@.push(added));
                assert(self@.subrange(0, id as int) =~= old(self)@);
                assert forall|i: int, j: int|
                    0 <= i < j < self@.len() implies self@[i].spec_path()
                    != self@[j].spec_path() by {
                    if j == id {
                        assert(!has_path(old(self)@, path@, i));
                    }
                }
                id
            },
        }
    }

    /// The file registered as `id`.
    pub fn get(&self, id: FileId) -> (r: Option<&File>)
        ensures
            (id as int) < self@.len() ==> r == Some(&self@[id as int]),
            (id as int) >= self@.len() ==> r is None,
    {
        if (id as usize) < self.files.len() {
            Some(&self.files[id as usize])
        } else {
            None
        }
    }

    /// The text a span selects; `None` for a span without a file, of an
    /// unknown file, or that does not fit the file's text.
    pub fn source_at(&self, span: Span) -> (r: Option<&str>)
        ensures
            r is Some <==> slice_of(self@, span) is Some,
            r matches Some(s) ==> slice_of(self@, span) == Some(bytes_of(s@)),
    {
        let id = match span.file_id {
            Some(id) => id,
            None => return None,
        };
        let file = match self.get(id) {
            Some(f) => f,
            None => return None,
        };
        slice_text(file.source(), span.start, span.end)
    }

    /// The text a span selects, for a span known to slice a registered file.
    pub fn source_at_unchecked(&self, span: Span) -> (r: &str)
        requires
            slice_of(self@, span) is Some,
        ensures
            slice_of(self@, span) == Some(bytes_of(r@)),
    {
        match self.source_at(span) {
            Some(text) => text,
            None => "",
        }
    }
}

} // verus!
