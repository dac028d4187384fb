use shader_compose::compose::{validate_and_emit, Composer, ModuleText};
use shader_compose::error::{ComposeError, ErrorReport};
use shader_compose::scan::marker_bytes;

fn directive(path: &str) -> Vec<u8> {
    let mut v = marker_bytes();
    v.extend_from_slice(path.as_bytes());
    v.push(b'\n');
    v
}

fn bytes(s: &str) -> Vec<u8> {
    s.as_bytes().to_vec()
}

fn run(files: &[(&str, Vec<u8>)], start: &str) -> Result<ModuleText, ErrorReport> {
    let mut composer = Composer::start(bytes(start));
    loop {
        let req = composer.request();
        match req {
            None => break,
            Some(p) => {
                let name = String::from_utf8(p).unwrap();
                match files.iter().find(|(n, _)| *n == name) {
                    Some((_, text)) => composer.supply(text.clone()),
                    None => composer.supply_error(format!("cannot read {name}")),
                }
            }
        }
    }
    composer.take_outcome()
}

#[test]
fn a_canonical_file_pulling_in_a_c_style_library() {
    // the starting file's first line names a C-style library; the rest is
    // its own canonical-dialect declaration
    let mut main = directive("lib.glsl");
    main.extend_from_slice(b"fn own_decl() -> i32 { return 1; }\n");
    let lib = bytes("#version 450\nint lib_decl() { return 2; }\nvoid main() { int x = lib_decl(); }\n");
    let files = vec![("main.wgsl", main), ("lib.glsl", lib)];
    let module = run(&files, "main.wgsl").expect("composition succeeds");
    // the library file was composed first, re-emitted in the canonical dialect
    assert_eq!(module.units.len(), 2);
    assert_eq!(module.units[0].path, bytes("lib.glsl"));
    assert_eq!(module.units[1].path, bytes("main.wgsl"));
    // the C-style unit's contribution is a re-emission, not its raw text
    assert_ne!(module.units[0].contribution, module.units[0].text);
    let out = validate_and_emit(&module).expect("validation and emission succeed");
    let text = String::from_utf8(out).unwrap();
    assert!(text.contains("lib_decl"), "emitted text keeps the library's declaration: {text}");
    assert!(text.contains("own_decl"), "emitted text keeps the file's own declaration: {text}");
}

#[test]
fn a_missing_file_is_reported_with_its_chain() {
    let mut main = directive("missing.wgsl");
    main.extend_from_slice(b"fn fine() -> i32 { return 1; }\n");
    let files = vec![("main.wgsl", main)];
    let report = run(&files, "main.wgsl").unwrap_err();
    match &report.error {
        ComposeError::Unreadable { message } => {
            assert!(message.contains("missing.wgsl"));
        }
        other => panic!("expected an unreadable-file failure, got {other:?}"),
    }
    // the chain names the unreadable file first, then the file that named it
    assert_eq!(report.trail, vec![bytes("missing.wgsl"), bytes("main.wgsl")]);
}

#[test]
fn emission_is_canonical_not_an_echo_of_the_source() {
    // odd spacing in the source does not survive re-emission: the module's
    // text and the emitted text come from the toolkit, not from copying
    let main = bytes("fn   spaced    () ->   i32 {   return   9   ; }\n");
    let files = vec![("main.wgsl", main.clone())];
    let module = run(&files, "main.wgsl").expect("composition succeeds");
    assert_eq!(module.text, main);
    let out = validate_and_emit(&module).expect("validation and emission succeed");
    let text = String::from_utf8(out).unwrap();
    assert!(text.contains("spaced"));
    assert_ne!(out_bytes(&text), main);
}

fn out_bytes(s: &str) -> Vec<u8> {
    s.as_bytes().to_vec()
}

#[test]
fn an_empty_starting_file_composes_and_emits() {
    let files = vec![("main.wgsl", Vec::new())];
    let module = run(&files, "main.wgsl").expect("an empty file is a valid module");
    assert_eq!(module.units.len(), 1);
    assert!(module.text.is_empty());
    let _ = validate_and_emit(&module).expect("an empty module validates");
}

#[test]
fn a_module_that_parses_but_does_not_validate() {
    // a compute entry point whose workgroup size is zero parses, and the
    // toolkit's validator is what rejects it
    let main = bytes("@compute @workgroup_size(0) fn cs() { }\n");
    let files = vec![("main.wgsl", main)];
    let module = run(&files, "main.wgsl").expect("parsing alone accepts this");
    let err = validate_and_emit(&module).unwrap_err();
    assert!(matches!(err, ComposeError::Validation { .. }), "got {err:?}");
}
