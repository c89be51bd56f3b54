use vstd::prelude::*;

use crate::registry::SourceRegistry;
use crate::source::{is_line_of, is_line_table};
use crate::span::Span;

verus! {

/// What the parser expected where it stopped.
#[derive(Clone, Copy, Debug, PartialEq, Eq)]
pub enum Expected {
    /// An `import` directive or a declaration keyword.
    Item,
    /// The name of a declaration.
    Name,
    /// A quoted path after `import`.
    PathLiteral,
    /// The `;` that ends a directive or declaration.
    Semicolon,
}

/// An error of one of the stages, with the span it is about.
#[derive(Clone, Copy, Debug, PartialEq, Eq)]
pub enum Error {
    /// Malformed syntax.
    Unexpected { span: Span, expected: Expected },
    /// An import whose path does not resolve to a known file.
    BadPath { span: Span },
    /// A second top-level declaration of a name.
    Redefinition { previous: Span, current: Span },
    /// A use of a name that is neither declared nor imported.
    UnknownIdent { span: Span },
    /// An import whose module has not been lowered before its importer.
    MissingModule { span: Span },
}

impl Error {
    /// The span the error is reported at.
    pub open spec fn spec_span(self) -> Span {
        match self {
            Error::Unexpected { span, .. } => span,
            Error::BadPath { span } => span,
            Error::Redefinition { current, .. } => current,
            Error::UnknownIdent { span } => span,
            Error::MissingModule { span } => span,
        }
    }

    /// The span the error is reported at.
    pub fn span(&self) -> (r: Span)
        ensures
            r == self.spec_span(),
    {
        match self {
            Error::Unexpected { span, .. } => *span,
            Error::BadPath { span } => *span,
            Error::Redefinition { current, .. } => *current,
            Error::UnknownIdent { span } => *span,
            Error::MissingModule { span } => *span,
        }
    }
}


/// Where a diagnostic points: the display name of the file and the 0-based
/// line and column (in bytes) of the start of its span.
#[derive(Clone, Debug, PartialEq, Eq)]
pub struct Location {
    pub file: String,
    pub line: usize,
    pub column: usize,
}

/// A diagnostic for the user: a message, the span it is about, and where
/// that span lies when it belongs to a registered file.
#[derive(Clone, Debug)]
pub struct ParseError {
    pub message: String,
    pub span: Span,
    pub location: Option<Location>,
}

impl ParseError {
    /// The text of the diagnostic.
    pub fn message(&self) -> (r: &str)
        ensures
            r@ == self.message@,
    {
        self.message.as_str()
    }

    /// Where the diagnostic points, when its span belongs to a file.
    pub fn location(&self) -> (r: Option<&Location>)
        ensures
            r == match self.location {
                Some(l) => Some(&l),
                None => None::<&Location>,
            },
    {
        match &self.location {
            Some(l) => Some(l),
            None => None,
        }
    }
}

/// `loc` is where `span` starts in the files `reg`, when the span belongs
/// to one of them; `None` otherwise.
pub open spec fn locates(reg: Seq<crate::source::File>, span: Span, loc: Option<Location>) -> bool {
    match span.file_id {
        Some(f) if (f as int) < reg.len() => match loc {
            Some(l) => {
                let starts = reg[f as int].spec_line_starts();
                &&& l.file@ == reg[f as int].spec_name()
                &&& is_line_of(starts, span.start as int, l.line as int)
                &&& l.column == span.start - starts[l.line as int]
            },
            None => false,
        },
        _ => loc is None,
    }
}

/// The message a diagnostic for `e` carries.
pub open spec fn message_of(e: Error) -> Seq<char> {
    match e {
        Error::Unexpected { expected, .. } => match expected {
            Expected::Item => "expected an import or a declaration"@,
            Expected::Name => "expected the name of the declaration"@,
            Expected::PathLiteral => "expected a quoted path"@,
            Expected::Semicolon => "expected `;`"@,
        },
        Error::BadPath { .. } => "import does not name a known file"@,
        Error::Redefinition { .. } => "name is declared more than once"@,
        Error::UnknownIdent { .. } => "no declaration of this name is visible"@,
        Error::MissingModule { .. } => "imported module is not lowered yet"@,
    }
}

impl Error {
    fn describe(&self) -> (r: String)
        ensures
            r@ == message_of(*self),
    {
        proof {
            reveal_strlit("expected an import or a declaration");
            reveal_strlit("expected the name of the declaration");
            reveal_strlit("expected a quoted path");
            reveal_strlit("expected `;`");
            reveal_strlit("import does not name a known file");
            reveal_strlit("name is declared more than once");
            reveal_strlit("no declaration of this name is visible");
            reveal_strlit("imported module is not lowered yet");
        }
        match self {
            Error::Unexpected { expected, .. } => match expected {
                Expected::Item => "expected an import or a declaration".to_owned(),
                Expected::Name => "expected the name of the declaration".to_owned(),
                Expected::PathLiteral => "expected a quoted path".to_owned(),
                Expected::Semicolon => "expected `;`".to_owned(),
            },
            Error::BadPath { .. } => "import does not name a known file".to_owned(),
            Error::Redefinition { .. } => "name is declared more than once".to_owned(),
            Error::UnknownIdent { .. } => "no declaration of this name is visible".to_owned(),
            Error::MissingModule { .. } => "imported module is not lowered yet".to_owned(),
        }
    }

    /// Turn the error into a diagnostic located in the file its span
    /// belongs to.
    pub fn as_parse_error(&self, registry: &SourceRegistry) -> (r: ParseError)
        requires
            registry.wf(),
        ensures
            r.span == self.spec_span(),
            r.message@ == message_of(*self),
            locates(registry@, r.span, r.location),
    {
        let span = self.span();
        let location = match span.file_id {
            Some(f) => match registry.get(f) {
                Some(file) => {
                    proof {
                        assert(is_line_table(file.spec_line_starts(), file.len()));
                    }
                    let line = match file.line_index((), span.start) {
                        Ok(line) => line,
                        Err(_) => 0,
                    };
                    let column = span.start - file.line_starts_at(line);
                    Some(Location { file: file.name().to_owned(), line, column })
                },
                None => None,
            },
            None => None,
        };
        ParseError { message: self.describe(), span, location }
    }
}

} // verus!
