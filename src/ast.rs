use vstd::prelude::*;

use crate::source::bytes_of;
use crate::span::{span_fits, FileId, Span};

verus! {

/// A name as written in a source file, with where it stands.
#[derive(Clone, Debug)]
pub struct Ident {
    pub name: String,
    pub span: Span,
}

/// A top-level declaration: its name and the names its definition uses.
#[derive(Clone, Debug)]
pub struct Decl {
    pub name: Ident,
    pub uses: Vec<Ident>,
    pub span: Span,
}

/// An `import "path";` directive; `resolved` holds the path it resolves to
/// once the resolver has seen it.
#[derive(Clone, Debug)]
pub struct Import {
    pub path: Ident,
    pub span: Span,
    pub resolved: Option<String>,
}

/// The parsed content of one file, or of several files folded together.
/// `files` lists the files whose content it holds, in the order they were
/// parsed.
#[derive(Clone, Debug)]
pub struct TranslationUnit {
    pub decls: Vec<Decl>,
    pub imports: Vec<Import>,
    pub files: Vec<FileId>,
}

impl TranslationUnit {
    pub fn new() -> (r: TranslationUnit)
        ensures
            r.decls@.len() == 0,
            r.imports@.len() == 0,
            r.files@.len() == 0,
    {
        TranslationUnit { decls: Vec::new(), imports: Vec::new(), files: Vec::new() }
    }
}

/// `span` belongs to file `id` and may slice its text `bytes`.
pub open spec fn span_in(span: Span, id: FileId, bytes: Seq<u8>) -> bool {
    span.file_id == Some(id) && span_fits(span, bytes)
}

/// An identifier of file `id` whose name is the text its span selects.
pub open spec fn ident_in(ident: Ident, id: FileId, bytes: Seq<u8>) -> bool {
    &&& span_in(ident.span, id, bytes)
    &&& bytes_of(ident.name@) == bytes.subrange(ident.span.start as int, ident.span.end as int)
}

/// A declaration parsed from file `id`.
pub open spec fn decl_in(decl: Decl, id: FileId, bytes: Seq<u8>) -> bool {
    &&& span_in(decl.span, id, bytes)
    &&& ident_in(decl.name, id, bytes)
    &&& forall|k: int| 0 <= k < decl.uses@.len() ==> ident_in(#[trigger] decl.uses@[k], id, bytes)
}

/// An import directive parsed from file `id`, not resolved yet.
pub open spec fn import_in(import: Import, id: FileId, bytes: Seq<u8>) -> bool {
    &&& span_in(import.span, id, bytes)
    &&& ident_in(import.path, id, bytes)
    &&& import.resolved is None
}

} // verus!
