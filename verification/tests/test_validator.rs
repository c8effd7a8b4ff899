use fastloop_guard::validator::{balanced_delimiters, validate_json, validate_python, validate_rust};

#[test]
fn python_valid() {
    assert!(validate_python("x = [1, 2, 3]\nprint(x)").is_ok());
}

#[test]
fn python_shell_injection_blocked() {
    assert!(validate_python("import os; os.system('rm -rf /')").is_err());
}

#[test]
fn python_subprocess_blocked() {
    assert!(validate_python("subprocess.run(['ls'])").is_err());
}

#[test]
fn python_pipe_blocked() {
    assert!(validate_python("x = 'a' | 'b'").is_err());
}

#[test]
fn python_unbalanced_parens() {
    assert!(validate_python("foo(bar(").is_err());
}

#[test]
fn json_valid() {
    assert!(validate_json(r#"{"key": "value"}"#).is_ok());
}

#[test]
fn json_truncated_fails() {
    assert!(validate_json(r#"{"key": "val"#).is_err());
}

#[test]
fn json_array_valid() {
    assert!(validate_json("[1, 2, 3]").is_ok());
}

#[test]
fn rust_valid() {
    assert!(validate_rust("fn main() { let x = 42; }").is_ok());
}

#[test]
fn rust_unsafe_blocked() {
    assert!(validate_rust("unsafe { *ptr }").is_err());
}

#[test]
fn rust_std_fs_blocked() {
    assert!(validate_rust("std::fs::read_to_string(\"/etc/passwd\")").is_err());
}

#[test]
fn rust_std_process_blocked() {
    assert!(validate_rust("std::process::Command::new(\"ls\")").is_err());
}

#[test]
fn rust_unbalanced_braces() {
    assert!(validate_rust("fn main() {").is_err());
}

#[test]
fn balanced_with_strings() {
    assert!(balanced_delimiters("x = \"(hello)\""));
}

#[test]
fn python_first_blocked_pattern_is_reported() {
    // `&&` comes before `;` in the list, and `$(` before both.
    assert_eq!(
        validate_python("a; b && c"),
        Err("blocked pattern in Python code: \"&&\"".to_string())
    );
    assert_eq!(
        validate_python("$(x); y"),
        Err("blocked pattern in Python code: \"$(\"".to_string())
    );
}

#[test]
fn unbalanced_messages_name_the_language() {
    assert_eq!(validate_python("f(x"), Err("unbalanced delimiters in Python code".to_string()));
    assert_eq!(validate_rust("fn f() {"), Err("unbalanced delimiters in Rust code".to_string()));
}

#[test]
fn rust_blocked_message_quotes_pattern() {
    assert_eq!(
        validate_rust("use std::net::TcpStream;"),
        Err("blocked pattern in Rust code: \"std::net::\"".to_string())
    );
}

#[test]
fn delimiter_edge_cases() {
    assert!(balanced_delimiters(""));
    assert!(!balanced_delimiters(")("));
    assert!(!balanced_delimiters("]"));
    assert!(!balanced_delimiters("\"open string"));
    assert!(balanced_delimiters("'a\\'b'"));
    assert!(balanced_delimiters("[{()}]"));
    assert!(!balanced_delimiters("{[}"));
    assert!(balanced_delimiters("\"[\" + '{'"));
}

#[test]
fn json_error_is_prefixed() {
    let err = validate_json("{").unwrap_err();
    assert!(err.starts_with("invalid JSON: "));
    assert!(err.len() > "invalid JSON: ".len());
    assert!(validate_json("not json").is_err());
    assert!(validate_json("null").is_ok());
}

#[test]
fn balanced_pieces_compose() {
    let s = "f(x, [1, {2}])";
    let t = "g('(')";
    assert!(balanced_delimiters(s) && balanced_delimiters(t));
    assert!(balanced_delimiters(&format!("{}{}", s, t)));
    assert!(balanced_delimiters(&format!("({})", s)));
    assert!(balanced_delimiters(&format!("[{}]", s)));
    assert!(balanced_delimiters(&format!("{{{}}}", s)));
}
