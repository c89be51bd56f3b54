use wgsl_front::ast::TranslationUnit;
use wgsl_front::error::Expected;
use wgsl_front::frontend::{lower, lower_units, merge_units, parse_translation_unit};
use wgsl_front::index::Index;
use wgsl_front::lower::{Lowerer, Module};
use wgsl_front::path::{join_path, parent_path};
use wgsl_front::resolve::resolve_units;
use wgsl_front::{parse_module, parse_modules, parse_str, Error, File, FileId, Frontend, SourceRegistry};

fn registry(files: &[(&str, &str)]) -> SourceRegistry {
    let mut reg = SourceRegistry::new();
    for (path, text) in files {
        reg.register(path.to_string(), text.to_string());
    }
    reg
}

fn files_of(units: &[(String, TranslationUnit)]) -> Vec<FileId> {
    units.iter().map(|u| u.1.files[0]).collect()
}

#[test]
fn end_to_end_single_module() {
    let reg = registry(&[
        ("main.wgsl", "import \"lib.wgsl\";\nconst b = a;\n"),
        ("lib.wgsl", "const a = 1;\n"),
    ]);
    let module = parse_module(&reg, 0).unwrap();
    assert_eq!(module.len(), 2);
    assert!(module.declares("a"));
    assert!(module.declares("b"));
}

#[test]
fn end_to_end_multiple_modules() {
    let reg = registry(&[
        ("main.wgsl", "import \"lib.wgsl\";\nconst b = a;\n"),
        ("lib.wgsl", "const a = 1;\n"),
    ]);
    let modules = parse_modules(&reg, 0).unwrap();
    assert_eq!(modules.len(), 2);
    assert_eq!(modules[0].0, "lib.wgsl");
    assert_eq!(modules[1].0, "main.wgsl");
    assert!(modules[0].1.declares("a"));
    assert_eq!(modules[0].1.len(), 1);
    assert!(modules[1].1.declares("b"));
    assert!(!modules[1].1.declares("a"));
}

#[test]
fn syntax_error_in_entry_points_at_its_line() {
    let reg = registry(&[("main.wgsl", "const a = 1;\n  123 oops;\n")]);
    let err = parse_module(&reg, 0).unwrap_err();
    let loc = err.location().unwrap();
    assert_eq!(loc.file, "main.wgsl");
    assert_eq!(loc.line, 1);
    assert_eq!(loc.column, 2);
    assert_eq!(err.span.file_id, Some(0));
    assert_eq!(err.message(), "expected an import or a declaration");
}

#[test]
fn diamond_visits_shared_file_once() {
    let reg = registry(&[
        ("a.wgsl", "import \"b.wgsl\";\nimport \"c.wgsl\";\nconst a = b + c;\n"),
        ("b.wgsl", "import \"d.wgsl\";\nconst b = d;\n"),
        ("c.wgsl", "import \"d.wgsl\";\nconst c = d;\n"),
        ("d.wgsl", "const d = 1;\n"),
    ]);
    let units = resolve_units(&reg, 0).unwrap();
    assert_eq!(files_of(&units), vec![0, 2, 3, 1]);
    let d_units = units.iter().filter(|u| u.1.files[0] == 3).count();
    assert_eq!(d_units, 1);
    let merged = parse_translation_unit(&reg, 0).unwrap();
    assert_eq!(merged.files, vec![0, 2, 3, 1]);
    assert_eq!(merged.decls.len(), 4);
    let module = parse_module(&reg, 0).unwrap();
    assert_eq!(module.len(), 4);
    for name in ["a", "b", "c", "d"] {
        assert!(module.declares(name));
    }
}

#[test]
fn cycle_terminates_without_bad_path() {
    let reg = registry(&[
        ("a.wgsl", "import \"b.wgsl\";\nconst a = b;\n"),
        ("b.wgsl", "import \"a.wgsl\";\nconst b = 1;\n"),
    ]);
    let units = resolve_units(&reg, 0).unwrap();
    assert_eq!(files_of(&units), vec![0, 1]);
    let module = parse_module(&reg, 0).unwrap();
    assert_eq!(module.len(), 2);
}

#[test]
fn self_import_is_harmless() {
    let reg = registry(&[("a.wgsl", "import \"a.wgsl\";\nconst a = 1;\n")]);
    let units = resolve_units(&reg, 0).unwrap();
    assert_eq!(units.len(), 1);
}

#[test]
fn missing_import_is_attributed_to_the_importer() {
    let reg = registry(&[
        ("src/main.wgsl", "import \"lib.wgsl\";\n"),
        ("src/lib.wgsl", "\n\nimport \"gone.wgsl\";\n"),
    ]);
    match resolve_units(&reg, 0) {
        Err(Error::BadPath { span }) => {
            assert_eq!(span.file_id, Some(1));
            assert_eq!(reg.source_at(span), Some("import \"gone.wgsl\";"));
        }
        other => panic!("expected a bad path, got {:?}", other.map(|u| u.len())),
    }
    let err = parse_module(&reg, 0).unwrap_err();
    let loc = err.location().unwrap();
    assert_eq!(loc.file, "src/lib.wgsl");
    assert_eq!(loc.line, 2);
    assert_eq!(err.message(), "import does not name a known file");
}

#[test]
fn imports_resolve_against_the_importer_directory() {
    let reg = registry(&[
        ("src/main.wgsl", "import \"util/math.wgsl\";\nconst m = pi;\n"),
        ("src/util/math.wgsl", "const pi = 3;\n"),
    ]);
    let units = resolve_units(&reg, 0).unwrap();
    assert_eq!(units.len(), 2);
    assert_eq!(units[0].1.imports[0].resolved.as_deref(), Some("src/util/math.wgsl"));
    assert_eq!(units[1].0, "src/util/math.wgsl");
}

#[test]
fn parsed_spans_slice_to_their_text() {
    let reg = registry(&[("m.wgsl", "import \"x.wgsl\";\nfn main = helper + 2;\n")]);
    let file = reg.get(0).unwrap();
    let mut unit = TranslationUnit::new();
    Frontend::new().parse_into(&mut unit, file).unwrap();
    let decl = &unit.decls[0];
    assert_eq!(reg.source_at(decl.name.span), Some("main"));
    assert_eq!(reg.source_at(decl.uses[0].span), Some("helper"));
    assert_eq!(reg.source_at(decl.span), Some("fn main = helper + 2;"));
    let import = &unit.imports[0];
    assert_eq!(reg.source_at(import.path.span), Some("x.wgsl"));
    assert_eq!(reg.source_at(import.span), Some("import \"x.wgsl\";"));
    assert!(import.resolved.is_none());
}

#[test]
fn parse_into_appends_after_existing_content() {
    let a = File::new(0, "a.wgsl".to_string(), "const a = 1;".to_string());
    let b = File::new(1, "b.wgsl".to_string(), "const b = 2; const c = b;".to_string());
    let mut unit = TranslationUnit::new();
    let mut frontend = Frontend::new();
    frontend.parse_into(&mut unit, &a).unwrap();
    frontend.parse_into(&mut unit, &b).unwrap();
    let names: Vec<&str> = unit.decls.iter().map(|d| d.name.name.as_str()).collect();
    assert_eq!(names, vec!["a", "b", "c"]);
    assert_eq!(unit.decls[2].name.span.file_id, Some(1));
}

#[test]
fn syntax_errors_say_what_was_expected() {
    let cases = [
        ("import x;", Expected::PathLiteral),
        ("import \"x.wgsl\"", Expected::Semicolon),
        ("import \"x.wgsl\nconst a = 1;", Expected::PathLiteral),
        ("const a = 1", Expected::Semicolon),
        ("fn 1x = 2;", Expected::Name),
        ("fn = 2;", Expected::Name),
        ("banana a;", Expected::Item),
        ("; const a = 1;", Expected::Item),
    ];
    for (text, expected) in cases {
        match Frontend::new().inner(text) {
            Err(Error::Unexpected { expected: e, span }) => {
                assert_eq!(e, expected, "{}", text);
                assert_eq!(span.file_id, Some(0));
            }
            _ => panic!("no syntax error for {}", text),
        }
    }
}

#[test]
fn duplicate_declaration_is_an_index_error() {
    let unit = {
        let file = File::new(0, "d.wgsl".to_string(), "const a = 1;\nvar a = 2;\n".to_string());
        let mut unit = TranslationUnit::new();
        Frontend::new().parse_into(&mut unit, &file).unwrap();
        unit
    };
    match Index::generate(&unit) {
        Err(Error::Redefinition { previous, current }) => {
            assert_eq!((previous.start, previous.end), (6, 7));
            assert_eq!((current.start, current.end), (17, 18));
        }
        _ => panic!("expected a redefinition"),
    }
    let err = parse_str("const a = 1;\nvar a = 2;\n").unwrap_err();
    assert_eq!(err.message(), "name is declared more than once");
    assert_eq!(err.location().unwrap().line, 1);
}

#[test]
fn unknown_name_is_a_lowering_error() {
    let err = parse_str("const a = 1;\nconst b = a + zz;\n").unwrap_err();
    assert_eq!(err.message(), "no declaration of this name is visible");
    let loc = err.location().unwrap();
    assert_eq!(loc.file, "<source>");
    assert_eq!((loc.line, loc.column), (1, 14));
}

#[test]
fn parse_str_lowers_a_single_text() {
    let module = parse_str("const x = 1;\nfn f = x + 2;\nstruct S;\n").unwrap();
    assert_eq!(module.len(), 3);
    assert_eq!(module.name(0), "x");
    assert_eq!(module.name(1), "f");
    assert_eq!(module.name(2), "S");
    let mut frontend = Frontend::new();
    assert_eq!(frontend.parse("").unwrap().len(), 0);
}

#[test]
fn lowering_against_modules_needs_each_import_lowered() {
    let reg = registry(&[
        ("main.wgsl", "import \"lib.wgsl\";\nconst b = a;\n"),
        ("lib.wgsl", "const a = 1;\n"),
    ]);
    let units = resolve_units(&reg, 0).unwrap();
    let main = &units[0].1;
    let index = Index::generate(main).unwrap();
    let missing: Vec<(String, Module)> = Vec::new();
    match Lowerer::new(&index).lower(main, Some(&missing)) {
        Err(Error::MissingModule { span }) => assert_eq!(span.file_id, Some(0)),
        _ => panic!("expected a missing module"),
    }
    let lib_index = Index::generate(&units[1].1).unwrap();
    let lib = Lowerer::new(&lib_index).lower(&units[1].1, Some(&missing)).unwrap();
    let ready = vec![("lib.wgsl".to_string(), lib)];
    let module = Lowerer::new(&index).lower(main, Some(&ready)).unwrap();
    assert!(module.declares("b"));
    assert!(lower(main).is_err());
}

#[test]
fn lowering_order_follows_reversed_walk() {
    let reg = registry(&[
        ("a.wgsl", "import \"b.wgsl\";\nconst a = b;\n"),
        ("b.wgsl", "import \"c.wgsl\";\nconst b = c;\n"),
        ("c.wgsl", "const c = 1;\n"),
    ]);
    let units = resolve_units(&reg, 0).unwrap();
    let modules = lower_units(&units).unwrap();
    let paths: Vec<&str> = modules.iter().map(|m| m.0.as_str()).collect();
    assert_eq!(paths, vec!["c.wgsl", "b.wgsl", "a.wgsl"]);
}

#[test]
fn cross_branch_diamond_fails_in_module_mode() {
    let reg = registry(&[
        ("a.wgsl", "import \"b.wgsl\";\nimport \"c.wgsl\";\nconst a = b + c;\n"),
        ("b.wgsl", "import \"d.wgsl\";\nconst b = d;\n"),
        ("c.wgsl", "import \"d.wgsl\";\nconst c = d;\n"),
        ("d.wgsl", "const d = 1;\n"),
    ]);
    let err = parse_modules(&reg, 0).unwrap_err();
    assert_eq!(err.message(), "imported module is not lowered yet");
    assert_eq!(err.location().unwrap().file, "b.wgsl");
}

#[test]
fn merge_keeps_unit_order() {
    let reg = registry(&[
        ("a.wgsl", "import \"b.wgsl\";\nconst a = 1;\n"),
        ("b.wgsl", "const b = 2;\n"),
    ]);
    let units = resolve_units(&reg, 0).unwrap();
    let merged = merge_units(units);
    let names: Vec<&str> = merged.decls.iter().map(|d| d.name.name.as_str()).collect();
    assert_eq!(names, vec!["a", "b"]);
    assert_eq!(merged.imports.len(), 1);
    assert_eq!(merged.files, vec![0, 1]);
}

#[test]
fn entry_without_directory_cannot_import() {
    let reg = registry(&[("/", "import \"x.wgsl\";\n"), ("x.wgsl", "")]);
    match resolve_units(&reg, 0) {
        Err(Error::BadPath { span }) => assert_eq!(span.file_id, Some(0)),
        _ => panic!("expected a bad path"),
    }
}

#[test]
fn parent_and_join_of_paths() {
    assert_eq!(parent_path("a/b/c.wgsl").as_deref(), Some("a/b"));
    assert_eq!(parent_path("c.wgsl").as_deref(), Some(""));
    assert_eq!(parent_path("/c.wgsl").as_deref(), Some("/"));
    assert_eq!(parent_path(""), None);
    assert_eq!(parent_path("/"), None);
    assert_eq!(join_path("a/b", "x.wgsl"), "a/b/x.wgsl");
    assert_eq!(join_path("", "x.wgsl"), "x.wgsl");
    assert_eq!(join_path("/", "x.wgsl"), "/x.wgsl");
    assert_eq!(join_path("a/", "x.wgsl"), "a/x.wgsl");
    assert_eq!(join_path("a", "/abs.wgsl"), "/abs.wgsl");
}

#[test]
fn unresolved_import_names_the_file_to_load() {
    let mut reg = registry(&[("src/main.wgsl", "const a = 1;\nimport \"util/x.wgsl\";\n")]);
    let span = match resolve_units(&reg, 0) {
        Err(Error::BadPath { span }) => span,
        _ => panic!("expected a bad path"),
    };
    let path = wgsl_front::resolve::unresolved_import(&reg, span);
    assert_eq!(path.as_deref(), Some("src/util/x.wgsl"));
    reg.register(path.unwrap(), "const x = a;".to_string());
    let units = resolve_units(&reg, 0).unwrap();
    assert_eq!(units.len(), 2);
    assert!(parse_module(&reg, 0).is_ok());
    assert_eq!(wgsl_front::resolve::unresolved_import(&reg, wgsl_front::Span::root()), None);
}

#[test]
fn equal_sources_give_equal_results() {
    let text = "const a = 1;\nfn f = a;\n";
    let first = parse_str(text).unwrap();
    let second = Frontend::new().parse(text).unwrap();
    assert_eq!(first.len(), second.len());
    for i in 0..first.len() {
        assert_eq!(first.name(i), second.name(i));
    }
    let e1 = parse_str("const a = 1;\nconst a = 2;\n").unwrap_err();
    let e2 = parse_str("const a = 1;\nconst a = 2;\n").unwrap_err();
    assert_eq!(e1.span, e2.span);
    assert_eq!(e1.message(), e2.message());
}
