use shader_compose::compose::{Composer, ModuleText};
use shader_compose::dialect::{dialect_of, extension_of, Dialect};
use shader_compose::error::{ComposeError, ErrorReport};
use shader_compose::scan::{marker_bytes, scan_directives};

/// A directive line naming `path`, ending in a newline.
fn directive(path: &str) -> Vec<u8> {
    let mut v = marker_bytes();
    v.extend_from_slice(path.as_bytes());
    v.push(b'\n');
    v
}

fn bytes(s: &str) -> Vec<u8> {
    s.as_bytes().to_vec()
}

/// Drive a composition over an in-memory set of files, recording each
/// requested path in order.
fn run(files: &[(&str, Vec<u8>)], start: &str) -> (Result<ModuleText, ErrorReport>, Vec<String>) {
    let mut composer = Composer::start(bytes(start));
    let mut requested: Vec<String> = Vec::new();
    loop {
        let req = composer.request();
        match req {
            None => break,
            Some(p) => {
                let name = String::from_utf8(p).unwrap();
                requested.push(name.clone());
                match files.iter().find(|(n, _)| *n == name) {
                    Some((_, text)) => composer.supply(text.clone()),
                    None => composer.supply_error(format!("cannot read {name}")),
                }
            }
        }
    }
    (composer.take_outcome(), requested)
}

fn unit_paths(m: &ModuleText) -> Vec<String> {
    m.units
        .iter()
        .map(|u| String::from_utf8(u.path.clone()).unwrap())
        .collect()
}

#[test]
fn scanner_finds_directive_lines_in_order() {
    let mut text = bytes("fn a() {}\n");
    text.extend_from_slice(&directive("one.wgsl"));
    text.extend_from_slice(b"// ordinary comment\n");
    text.extend_from_slice(&directive("two.glsl"));
    text.extend_from_slice(b"fn b() {}\n");
    let found = scan_directives(&text);
    assert_eq!(found, vec![bytes("one.wgsl"), bytes("two.glsl")]);
}

#[test]
fn scanner_requires_exact_marker_at_line_start() {
    let mut text = Vec::new();
    text.extend_from_slice(b"  ");
    text.extend_from_slice(&marker_bytes());
    text.extend_from_slice(b"indented.wgsl\n");
    text.extend_from_slice(b"//imclude:typo.wgsl\n");
    text.extend_from_slice(b"// plain comment\n");
    let found = scan_directives(&text);
    assert!(found.is_empty());
}

#[test]
fn scanner_handles_crlf_and_final_line() {
    // a directive ended by \r\n keeps no carriage return in its path,
    // and the final line needs no newline at all
    let mut text = marker_bytes();
    text.extend_from_slice(b"first.wgsl\r\n");
    text.extend_from_slice(&marker_bytes());
    text.extend_from_slice(b"last.wgsl");
    let found = scan_directives(&text);
    assert_eq!(found, vec![bytes("first.wgsl"), bytes("last.wgsl")]);
}

#[test]
fn extension_follows_last_dot_of_final_component() {
    assert_eq!(extension_of(&bytes("a/b/main.wgsl")), Some(bytes("wgsl")));
    assert_eq!(extension_of(&bytes("archive.tar.gz")), Some(bytes("gz")));
    assert_eq!(extension_of(&bytes("noext")), None);
    assert_eq!(extension_of(&bytes(".hidden")), None);
    assert_eq!(extension_of(&bytes("dir.v/plain")), None);
    assert_eq!(extension_of(&bytes("trailing.")), Some(bytes("")));
}

#[test]
fn dialect_is_read_off_the_extension() {
    assert_eq!(dialect_of(&bytes("x.wgsl")), Dialect::Wgsl);
    assert_eq!(dialect_of(&bytes("x.glsl")), Dialect::Glsl);
    assert_eq!(dialect_of(&bytes("x.txt")), Dialect::Unknown);
    assert_eq!(dialect_of(&bytes("x")), Dialect::Unknown);
    assert_eq!(dialect_of(&bytes("x.WGSL")), Dialect::Unknown);
}

#[test]
fn ordering_two_siblings_then_the_file_itself() {
    let a = bytes("fn from_a() -> i32 { return 1; }\n");
    let b = bytes("fn from_b() -> i32 { return 2; }\n");
    let mut f = directive("a.wgsl");
    f.extend_from_slice(&directive("b.wgsl"));
    f.extend_from_slice(b"fn from_f() -> i32 { return 3; }\n");
    let files = vec![
        ("f.wgsl", f.clone()),
        ("a.wgsl", a.clone()),
        ("b.wgsl", b.clone()),
    ];
    let (out, requested) = run(&files, "f.wgsl");
    let module = out.unwrap();
    assert_eq!(unit_paths(&module), vec!["a.wgsl", "b.wgsl", "f.wgsl"]);
    // the text is each unit's own text, in that order (all canonical dialect)
    let mut expected = a.clone();
    expected.extend_from_slice(&b);
    expected.extend_from_slice(&f);
    assert_eq!(module.text, expected);
    assert_eq!(requested, vec!["f.wgsl", "a.wgsl", "b.wgsl"]);
}

#[test]
fn transitivity_chain_composes_innermost_first() {
    let mut a = directive("b.wgsl");
    a.extend_from_slice(b"fn from_a() -> i32 { return from_b(); }\n");
    let mut b = directive("c.wgsl");
    b.extend_from_slice(b"fn from_b() -> i32 { return from_c(); }\n");
    let c = bytes("fn from_c() -> i32 { return 7; }\n");
    let files = vec![
        ("a.wgsl", a.clone()),
        ("b.wgsl", b.clone()),
        ("c.wgsl", c.clone()),
    ];
    let (out, _) = run(&files, "a.wgsl");
    let module = out.unwrap();
    assert_eq!(unit_paths(&module), vec!["c.wgsl", "b.wgsl", "a.wgsl"]);
    let mut expected = c.clone();
    expected.extend_from_slice(&b);
    expected.extend_from_slice(&a);
    assert_eq!(module.text, expected);
}

#[test]
fn pure_canonical_composition_is_the_concatenation() {
    let lib = bytes("const seven: i32 = 7;\n");
    let mut main = directive("lib.wgsl");
    main.extend_from_slice(b"fn use_it() -> i32 { return seven; }\n");
    let files = vec![("main.wgsl", main.clone()), ("lib.wgsl", lib.clone())];
    let (out, _) = run(&files, "main.wgsl");
    let module = out.unwrap();
    let mut expected = lib.clone();
    expected.extend_from_slice(&main);
    assert_eq!(module.text, expected);
    for u in &module.units {
        assert_eq!(u.dialect, Dialect::Wgsl);
        assert_eq!(u.contribution, u.text);
    }
}

#[test]
fn a_file_named_twice_is_read_and_composed_twice() {
    let g = bytes("// a note, twice over\n");
    let mut f = directive("g.wgsl");
    f.extend_from_slice(&directive("g.wgsl"));
    f.extend_from_slice(b"fn from_f() -> i32 { return 3; }\n");
    let files = vec![("f.wgsl", f.clone()), ("g.wgsl", g.clone())];
    let (out, requested) = run(&files, "f.wgsl");
    let module = out.unwrap();
    assert_eq!(unit_paths(&module), vec!["g.wgsl", "g.wgsl", "f.wgsl"]);
    assert_eq!(requested.iter().filter(|r| *r == "g.wgsl").count(), 2);
    let mut expected = g.clone();
    expected.extend_from_slice(&g);
    expected.extend_from_slice(&f);
    assert_eq!(module.text, expected);
}

#[test]
fn unknown_extension_fails_without_any_parse() {
    let files = vec![("main.txt", bytes("anything at all"))];
    let (out, requested) = run(&files, "main.txt");
    let report = out.unwrap_err();
    match report.error {
        ComposeError::UnknownDialect { extension } => {
            assert_eq!(extension, Some(bytes("txt")));
        }
        other => panic!("expected an unknown-dialect failure, got {other:?}"),
    }
    assert_eq!(report.trail, vec![bytes("main.txt")]);
    assert_eq!(requested, vec!["main.txt"]);
}

#[test]
fn missing_extension_fails_the_same_way() {
    let files = vec![("mainfile", bytes(""))];
    let (out, _) = run(&files, "mainfile");
    let report = out.unwrap_err();
    match report.error {
        ComposeError::UnknownDialect { extension } => assert_eq!(extension, None),
        other => panic!("expected an unknown-dialect failure, got {other:?}"),
    }
}

#[test]
fn a_nested_parse_failure_names_the_failing_file() {
    let bad = bytes("fn broken( {\n");
    let mut main = directive("bad.wgsl");
    main.extend_from_slice(b"fn fine() -> i32 { return 1; }\n");
    let files = vec![("main.wgsl", main), ("bad.wgsl", bad)];
    let (out, _) = run(&files, "main.wgsl");
    let report = out.unwrap_err();
    match report.error {
        ComposeError::DialectAParse { rendered } => {
            assert!(!rendered.is_empty());
        }
        other => panic!("expected a dialect-A parse failure, got {other:?}"),
    }
    assert_eq!(report.trail, vec![bytes("bad.wgsl"), bytes("main.wgsl")]);
}

#[test]
fn a_bad_c_style_file_reports_count_and_first_cause() {
    let bad = bytes("#version 450\nint broken( {\n");
    let mut main = directive("bad.glsl");
    main.extend_from_slice(b"fn fine() -> i32 { return 1; }\n");
    let files = vec![("main.wgsl", main), ("bad.glsl", bad)];
    let (out, _) = run(&files, "main.wgsl");
    let report = out.unwrap_err();
    match report.error {
        ComposeError::DialectBParse { count, first } => {
            assert!(count >= 1);
            let first = first.expect("the first cause is kept");
            assert!(!first.is_empty());
        }
        other => panic!("expected a dialect-B parse failure, got {other:?}"),
    }
    assert_eq!(report.trail, vec![bytes("bad.glsl"), bytes("main.wgsl")]);
}

#[test]
fn conflicting_declarations_fail_when_the_second_file_lands() {
    let one = bytes("fn same_name() -> i32 { return 1; }\n");
    let two = bytes("fn same_name() -> i32 { return 2; }\n");
    let mut main = directive("one.wgsl");
    main.extend_from_slice(&directive("two.wgsl"));
    let files = vec![("main.wgsl", main), ("one.wgsl", one), ("two.wgsl", two)];
    let (out, _) = run(&files, "main.wgsl");
    let report = out.unwrap_err();
    assert!(matches!(report.error, ComposeError::DialectAParse { .. }));
    assert_eq!(report.trail, vec![bytes("two.wgsl"), bytes("main.wgsl")]);
}

#[test]
fn ordering_holds_whatever_the_siblings_pull_in() {
    // a's subtree has its own nested directive: the visit order is still
    // all of a's subtree, then b's, then the file itself
    let nested = bytes("fn from_nested() -> i32 { return 0; }\n");
    let mut a = directive("nested.wgsl");
    a.extend_from_slice(b"fn from_a() -> i32 { return from_nested(); }\n");
    let b = bytes("fn from_b() -> i32 { return 2; }\n");
    let mut f = directive("a.wgsl");
    f.extend_from_slice(&directive("b.wgsl"));
    f.extend_from_slice(b"fn from_f() -> i32 { return from_a() + from_b(); }\n");
    let files = vec![
        ("f.wgsl", f),
        ("a.wgsl", a),
        ("b.wgsl", b),
        ("nested.wgsl", nested),
    ];
    let (out, _) = run(&files, "f.wgsl");
    let module = out.unwrap();
    assert_eq!(
        unit_paths(&module),
        vec!["nested.wgsl", "a.wgsl", "b.wgsl", "f.wgsl"]
    );
}

#[test]
fn directive_paths_are_taken_verbatim() {
    let mut text = marker_bytes();
    text.extend_from_slice(b"sub dir/odd name.wgsl \n");
    let found = scan_directives(&text);
    assert_eq!(found, vec![bytes("sub dir/odd name.wgsl ")]);
}

#[test]
fn a_directive_below_declarations_still_lands_first() {
    let g = bytes("const base: i32 = 1;\n");
    let mut f = bytes("fn own() -> i32 { return base; }\n");
    f.extend_from_slice(&directive("g.wgsl"));
    let files = vec![("f.wgsl", f.clone()), ("g.wgsl", g.clone())];
    let (out, _) = run(&files, "f.wgsl");
    let module = out.unwrap();
    assert_eq!(unit_paths(&module), vec!["g.wgsl", "f.wgsl"]);
    let mut expected = g.clone();
    expected.extend_from_slice(&f);
    assert_eq!(module.text, expected);
}
