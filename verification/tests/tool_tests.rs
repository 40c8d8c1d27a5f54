use agent_tools::command::{is_powershell_command, join_args};
use agent_tools::fetch::{HttpMethod, parse_http_method, validate_fetch_url};
use agent_tools::search::build_search_pattern;

#[test]
fn only_powershell_commands_pass() {
    assert!(is_powershell_command("powershell"));
    assert!(is_powershell_command("powershell.exe"));
    assert!(is_powershell_command("C:\\Windows\\PowerShell.exe"));
    assert!(is_powershell_command("POWERSHELL.EXE"));
    assert!(!is_powershell_command("cmd.exe"));
    assert!(!is_powershell_command("powershell7"));
    assert!(!is_powershell_command(""));
}

#[test]
fn args_join_with_single_spaces() {
    assert_eq!(join_args(&vec![]), "");
    assert_eq!(join_args(&vec!["Get-Date".to_string()]), "Get-Date");
    assert_eq!(
        join_args(&vec!["ls".to_string(), "-la".to_string(), ".".to_string()]),
        "ls -la ."
    );
}

#[test]
fn url_validation_messages() {
    assert_eq!(validate_fetch_url(""), Err("URL cannot be empty".to_string()));
    assert_eq!(
        validate_fetch_url("ftp://host/file"),
        Err("Only HTTP and HTTPS protocols are allowed".to_string())
    );
    assert_eq!(validate_fetch_url("http://example.com"), Ok(()));
    assert_eq!(validate_fetch_url("https://example.com/x"), Ok(()));
}

#[test]
fn http_methods_resolve_case_insensitively() {
    assert_eq!(parse_http_method("GET"), Some(HttpMethod::Get));
    assert_eq!(parse_http_method("get"), Some(HttpMethod::Get));
    assert_eq!(parse_http_method("Post"), Some(HttpMethod::Post));
    assert_eq!(parse_http_method("PUT"), Some(HttpMethod::Put));
    assert_eq!(parse_http_method("delete"), Some(HttpMethod::Delete));
    assert_eq!(parse_http_method("HEAD"), Some(HttpMethod::Head));
    assert_eq!(parse_http_method("PATCH"), None);
    assert_eq!(parse_http_method(""), None);
}

#[test]
fn search_patterns_join_path_and_glob() {
    assert_eq!(build_search_pattern("/src", "*.rs"), "/src/*.rs");
    assert_eq!(build_search_pattern("/src/", "*.rs"), "/src/*.rs");
    assert_eq!(build_search_pattern("C:\\code\\", "*.ts"), "C:\\code\\*.ts");
    assert_eq!(build_search_pattern("", "*.md"), "/*.md");
}
