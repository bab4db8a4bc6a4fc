use lscmd::error::{LscmdError, Result};
use lscmd::security::{InputValidator, PathComponent, QuoteParser};
use std::path::{Component, Path};

fn components_of(path: &Path) -> Vec<PathComponent> {
    path.components()
        .map(|component| match component {
            Component::Prefix(prefix) => {
                PathComponent::Prefix(prefix.as_os_str().to_string_lossy().into_owned())
            }
            Component::RootDir => PathComponent::RootDir,
            Component::CurDir => PathComponent::CurDir,
            Component::ParentDir => PathComponent::ParentDir,
            Component::Normal(name) => PathComponent::Normal(name.to_string_lossy().into_owned()),
        })
        .collect()
}

#[test]
fn test_validator_valid_inputs() -> Result<()> {
    InputValidator::validate_file_path(&components_of(Path::new("/home/user/file.sh")))?;
    InputValidator::validate_command_name("my-command_1")?;
    InputValidator::validate_search_query("some query")?;
    Ok(())
}

#[test]
fn test_validator_path_traversal() {
    assert!(InputValidator::validate_file_path(&components_of(Path::new("../secret.txt"))).is_err());
    assert!(InputValidator::validate_file_path(&components_of(Path::new(
        "/home/user/../../etc/passwd"
    )))
    .is_err());
}

#[test]
fn test_validator_command_name_too_long() {
    let long_name = "a".repeat(300);
    assert!(InputValidator::validate_command_name(&long_name).is_err());
}

#[test]
fn test_validator_command_name_control_chars() {
    assert!(InputValidator::validate_command_name("my\ncommand").is_err());
    assert!(InputValidator::validate_command_name("my\tcmd").is_err());
}

#[test]
fn test_validator_search_query_too_long() {
    let long_query = "q".repeat(2000);
    assert!(InputValidator::validate_search_query(&long_query).is_err());
}

#[test]
fn test_quote_parser_extract_content() -> Result<()> {
    let parser = QuoteParser::new();

    // Double quotes
    let line1 = "alias gco=\"git checkout\" # comment";
    assert_eq!(
        parser.extract_quoted_content(line1)?,
        Some("git checkout".to_string())
    );

    // Single quotes
    let line2 = "alias ls='ls -la'";
    assert_eq!(
        parser.extract_quoted_content(line2)?,
        Some("ls -la".to_string())
    );

    // No quotes
    let line3 = "not_an_alias";
    assert_eq!(parser.extract_quoted_content(line3)?, None);

    // Unterminated quotes
    let line4 = "alias bad=\"something";
    assert_eq!(parser.extract_quoted_content(line4)?, None);

    // Mixed quotes (finds first pair)
    let line5 = "alias x='echo \"hello\"'";
    assert_eq!(
        parser.extract_quoted_content(line5)?,
        Some("echo \"hello\"".to_string())
    );

    Ok(())
}

#[test]
fn validator_messages_name_the_broken_rule() {
    match InputValidator::validate_file_path(&components_of(Path::new("a/../b"))) {
        Err(LscmdError::Validation(message)) => {
            assert_eq!(message, "Path traversal detected: '..' is not allowed")
        }
        other => panic!("unexpected: {:?}", other),
    }
    match InputValidator::validate_file_path(&vec![
        PathComponent::Prefix("\\\\server\\share".to_string()),
        PathComponent::RootDir,
        PathComponent::ParentDir,
    ]) {
        Err(LscmdError::Validation(message)) => assert_eq!(message, "UNC paths are not supported"),
        other => panic!("unexpected: {:?}", other),
    }
    assert!(InputValidator::validate_file_path(&vec![
        PathComponent::Prefix("C:".to_string()),
        PathComponent::RootDir,
        PathComponent::CurDir,
        PathComponent::Normal("x.sh".to_string()),
    ])
    .is_ok());
    match InputValidator::validate_command_name(&"é".repeat(129)) {
        Err(LscmdError::Validation(message)) => {
            assert_eq!(message, "Command name exceeds maximum length of 256")
        }
        other => panic!("unexpected: {:?}", other),
    }
    assert!(InputValidator::validate_command_name(&"é".repeat(128)).is_ok());
    match InputValidator::validate_command_name("bell\u{7}") {
        Err(LscmdError::Validation(message)) => {
            assert_eq!(message, "Command name contains invalid control characters")
        }
        other => panic!("unexpected: {:?}", other),
    }
    assert!(InputValidator::validate_command_name("caf\u{e9}\u{a0}").is_ok());
    assert!(InputValidator::validate_command_name("x\u{9f}").is_err());
    assert!(InputValidator::validate_command_name("").is_ok());
    assert!(InputValidator::validate_search_query(&"q".repeat(1024)).is_ok());
    match InputValidator::validate_search_query(&"q".repeat(1025)) {
        Err(LscmdError::Validation(message)) => {
            assert_eq!(message, "Search query exceeds maximum length of 1024")
        }
        other => panic!("unexpected: {:?}", other),
    }
}

#[test]
fn quote_parser_edge_cases() {
    let parser = QuoteParser::default();
    assert_eq!(parser.extract_quoted_content("").unwrap(), None);
    assert_eq!(parser.extract_quoted_content("''").unwrap(), Some(String::new()));
    assert_eq!(parser.extract_quoted_content("a\"b'c\"d'").unwrap(), Some("b'c".to_string()));
    assert_eq!(parser.extract_quoted_content("x='\"").unwrap(), None);
    assert_eq!(parser.extract_quoted_content("é='ü' 'z'").unwrap(), Some("ü".to_string()));
}
