use agent_tools::file_check::{check_file_content, is_valid_utf8};

#[test]
fn utf8_validity() {
    assert!(is_valid_utf8(b"plain ascii"));
    assert!(is_valid_utf8("caf\u{e9}".as_bytes()));
    assert!(!is_valid_utf8(&[0xFF, 0xFE, 0x00]));
    assert!(is_valid_utf8(&[]));
}

#[test]
fn encoding_detection() {
    let bom = [0xEF, 0xBB, 0xBF, b'h', b'i'];
    let r = check_file_content("txt", &bom.to_vec());
    assert_eq!(r.encoding, "UTF-8 BOM");
    let r = check_file_content("txt", &b"hi".to_vec());
    assert_eq!(r.encoding, "UTF-8");
    let r = check_file_content("txt", &vec![0xFF, 0x00]);
    assert_eq!(r.encoding, "Unknown/Binary");
}

#[test]
fn file_types_by_extension() {
    let empty: Vec<u8> = Vec::new();
    assert_eq!(check_file_content("rs", &empty).file_type, "Rust");
    assert_eq!(check_file_content("ts", &empty).file_type, "TypeScript");
    assert_eq!(check_file_content("tsx", &empty).file_type, "TypeScript");
    assert_eq!(check_file_content("js", &empty).file_type, "JavaScript");
    assert_eq!(check_file_content("jsx", &empty).file_type, "JavaScript");
    assert_eq!(check_file_content("json", &empty).file_type, "JSON");
    assert_eq!(check_file_content("toml", &empty).file_type, "TOML");
    assert_eq!(check_file_content("md", &empty).file_type, "Markdown");
    assert_eq!(check_file_content("txt", &empty).file_type, "Text");
    assert_eq!(check_file_content("weird", &empty).file_type, "Unknown");
}

#[test]
fn line_count_matches_lines() {
    let r = check_file_content("txt", &b"a\nb\nc".to_vec());
    assert_eq!(r.line_count, 3);
    let r = check_file_content("txt", &b"a\nb\n".to_vec());
    assert_eq!(r.line_count, 2);
    let r = check_file_content("txt", &Vec::new());
    assert_eq!(r.line_count, 0);
}

#[test]
fn json_syntax_is_checked() {
    let ok = check_file_content("json", &br#"{"a": 1}"#.to_vec());
    assert!(ok.valid);
    assert!(ok.errors.is_empty());
    let bad = check_file_content("json", &b"{oops".to_vec());
    assert!(!bad.valid);
    assert_eq!(bad.errors.len(), 1);
    assert!(bad.errors[0].starts_with("Invalid JSON syntax:"));
}

#[test]
fn toml_syntax_is_checked() {
    let ok = check_file_content("toml", &b"key = 1\n".to_vec());
    assert!(ok.valid);
    assert!(ok.errors.is_empty());
    let bad = check_file_content("toml", &b"= nope".to_vec());
    assert!(!bad.valid);
    assert_eq!(bad.errors.len(), 1);
    assert!(bad.errors[0].starts_with("Invalid TOML syntax:"));
}

#[test]
fn script_checks_find_debug_statements_and_braces() {
    let src = b"function f() {\n  console.log(1);\n  debugger;\n".to_vec();
    let r = check_file_content("js", &src);
    assert!(!r.valid);
    assert_eq!(r.errors, vec!["Unbalanced braces: 1 open, 0 close".to_string()]);
    assert_eq!(
        r.warnings,
        vec![
            "Found console.log statement".to_string(),
            "Found debugger statement".to_string()
        ]
    );
}

#[test]
fn balanced_script_is_valid() {
    let src = b"const x = { a: 1 };\n".to_vec();
    let r = check_file_content("ts", &src);
    assert!(r.valid);
    assert!(r.errors.is_empty());
    assert!(r.warnings.is_empty());
}

#[test]
fn trailing_whitespace_warning_names_lines() {
    let src = b"clean\ndirty \nalso\t\n".to_vec();
    let r = check_file_content("txt", &src);
    assert!(r.valid);
    assert_eq!(
        r.warnings,
        vec!["Trailing whitespace on lines: [2, 3]".to_string()]
    );
}

#[test]
fn long_line_warning_names_lines() {
    let long = "x".repeat(121);
    let src = format!("short\n{}", long).into_bytes();
    let r = check_file_content("txt", &src);
    assert_eq!(
        r.warnings,
        vec!["Lines longer than 120 characters: [2]".to_string()]
    );
}

#[test]
fn binary_content_is_still_line_counted() {
    // invalid bytes go through the lossy decoding; the line structure
    // around them is still seen
    let r = check_file_content("txt", &vec![0xFF, b'\n', 0xFE, b'\n', b'x']);
    assert_eq!(r.encoding, "Unknown/Binary");
    assert_eq!(r.line_count, 3);
}

#[test]
fn many_flagged_lines_are_not_listed() {
    // ten or more affected lines keep the warning list quiet
    let src = "a \n".repeat(10).into_bytes();
    let r = check_file_content("txt", &src);
    assert!(r.warnings.is_empty());
}
