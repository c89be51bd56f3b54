use wgsl_front::source::{same_text, slice_text, LineError};
use wgsl_front::{File, SourceRegistry, Span};

fn file(text: &str) -> File {
    File::new(0, "shaders/main.wgsl".to_string(), text.to_string())
}

#[test]
fn line_table_of_several_lines() {
    let f = file("ab\ncd\n\nx");
    assert_eq!(f.line_count(), 4);
    assert_eq!(f.line_start(0), Ok(0));
    assert_eq!(f.line_start(1), Ok(3));
    assert_eq!(f.line_start(2), Ok(6));
    assert_eq!(f.line_start(3), Ok(7));
    assert_eq!(f.line_start(4), Ok(8));
    assert_eq!(f.line_start(5), Err(LineError::LineTooLarge { given: 5, max: 3 }));
}

#[test]
fn line_of_each_line_start_is_that_line() {
    let f = file("fn a = b;\n\nconst c = 1;\nlet d = c;\n");
    for i in 0..f.line_count() {
        let start = f.line_starts_at(i);
        assert_eq!(f.line_index((), start), Ok(i));
    }
}

#[test]
fn line_index_inside_and_past_the_end() {
    let f = file("ab\ncd\n\nx");
    assert_eq!(f.line_index((), 1), Ok(0));
    assert_eq!(f.line_index((), 2), Ok(0));
    assert_eq!(f.line_index((), 4), Ok(1));
    assert_eq!(f.line_index((), 6), Ok(2));
    assert_eq!(f.line_index((), 8), Ok(3));
    assert_eq!(f.line_index((), 1000), Ok(3));
}

#[test]
fn line_ranges() {
    let f = file("ab\ncd\n\nx");
    assert_eq!(f.line_range((), 0), Ok((0, 3)));
    assert_eq!(f.line_range((), 1), Ok((3, 6)));
    assert_eq!(f.line_range((), 3), Ok((7, 8)));
    assert_eq!(f.line_range((), 4), Err(LineError::LineTooLarge { given: 4, max: 3 }));
    assert_eq!(f.line_range((), 5), Err(LineError::LineTooLarge { given: 5, max: 3 }));
    let two = file("ab\ncd");
    assert_eq!(two.line_range((), 0), Ok((0, 3)));
    assert_eq!(two.line_range((), 1), Ok((3, 5)));
    assert!(two.line_range((), 2).is_err());
}

#[test]
fn empty_text_has_one_line() {
    let f = file("");
    assert_eq!(f.line_count(), 1);
    assert_eq!(f.line_index((), 0), Ok(0));
    assert_eq!(f.line_range((), 0), Ok((0, 0)));
}

#[test]
fn line_starts_count_bytes_of_multibyte_text() {
    let f = file("é\nü\n");
    assert_eq!(f.line_count(), 3);
    assert_eq!(f.line_start(1), Ok(3));
    assert_eq!(f.line_start(2), Ok(6));
}

#[test]
fn file_accessors() {
    let f = File::new(7, "dir/x.wgsl".to_string(), "const a = 1;".to_string());
    assert_eq!(f.id(), 7);
    assert_eq!(f.path(), "dir/x.wgsl");
    assert_eq!(f.name(), "dir/x.wgsl");
    assert_eq!(f.source(), "const a = 1;");
}

#[test]
fn registering_a_path_twice_keeps_its_identity() {
    let mut reg = SourceRegistry::new();
    let a = reg.register("a.wgsl".to_string(), "const x = 1;".to_string());
    let b = reg.register("b.wgsl".to_string(), "const y = 1;".to_string());
    let again = reg.register("a.wgsl".to_string(), "const z = 2;".to_string());
    assert_eq!(a, 0);
    assert_eq!(b, 1);
    assert_eq!(again, a);
    assert_eq!(reg.len(), 2);
    assert_eq!(reg.get(a).unwrap().source(), "const x = 1;");
    assert!(reg.get(2).is_none());
}

#[test]
fn visit_finds_registered_paths_only() {
    let mut reg = SourceRegistry::new();
    reg.register("a.wgsl".to_string(), String::new());
    reg.register("lib/b.wgsl".to_string(), String::new());
    assert_eq!(reg.visit("lib/b.wgsl"), Some(1));
    assert_eq!(reg.visit("a.wgsl"), Some(0));
    assert_eq!(reg.visit("b.wgsl"), None);
}

#[test]
fn source_at_slices_the_span() {
    let mut reg = SourceRegistry::new();
    let id = reg.register("a.wgsl".to_string(), "ab\ncd".to_string());
    assert_eq!(reg.source_at(Span::new(3, 5, Some(id))), Some("cd"));
    assert_eq!(reg.source_at(Span::new(0, 0, Some(id))), Some(""));
    assert_eq!(reg.source_at(Span::new(3, 6, Some(id))), None);
    assert_eq!(reg.source_at(Span::new(4, 3, Some(id))), None);
    assert_eq!(reg.source_at(Span::new(0, 1, Some(9))), None);
    assert_eq!(reg.source_at(Span::new(0, 1, None)), None);
    assert_eq!(reg.source_at(Span::root()), None);
}

#[test]
fn source_at_refuses_a_cut_inside_a_character() {
    let mut reg = SourceRegistry::new();
    let id = reg.register("u.wgsl".to_string(), "é!".to_string());
    assert_eq!(reg.source_at(Span::new(0, 1, Some(id))), None);
    assert_eq!(reg.source_at(Span::new(0, 2, Some(id))), Some("é"));
    assert_eq!(reg.source_at(Span::new(2, 3, Some(id))), Some("!"));
}

#[test]
fn slice_text_and_same_text() {
    assert_eq!(slice_text("hello", 1, 4), Some("ell"));
    assert_eq!(slice_text("hello", 4, 1), None);
    assert_eq!(slice_text("hello", 0, 6), None);
    assert!(same_text("abc", "abc"));
    assert!(!same_text("abc", "abd"));
    assert!(!same_text("abc", "ab"));
}

#[test]
fn source_at_unchecked_on_a_fitting_span() {
    let mut reg = SourceRegistry::new();
    let id = reg.register("a.wgsl".to_string(), "const a = 1;".to_string());
    assert_eq!(reg.source_at_unchecked(Span::new(6, 7, Some(id))), "a");
}
