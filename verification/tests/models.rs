use lscmd::database::schema::get_schema;
use lscmd::database::Command;
use lscmd::error::LscmdError;

#[test]
fn test_command_validation_success() {
    let cmd = Command {
        name: "my_func".to_string(),
        cmd_type: "function".to_string(),
        path: "/path/to/file.sh".to_string(),
        code: "echo hello".to_string(),
        file_mtime: 12345,
        created_at: None,
    };
    assert!(cmd.validate().is_ok());
}

#[test]
fn test_command_validation_failures() {
    // Empty name
    let mut cmd = Command {
        name: "".to_string(),
        cmd_type: "function".to_string(),
        path: "/path/to/file.sh".to_string(),
        code: "echo hello".to_string(),
        file_mtime: 12345,
        created_at: None,
    };
    assert!(matches!(cmd.validate(), Err(LscmdError::Validation(_))));

    // Invalid type
    cmd.name = "my_func".to_string();
    cmd.cmd_type = "invalid_type".to_string();
    assert!(matches!(cmd.validate(), Err(LscmdError::Validation(_))));

    // Empty path
    cmd.cmd_type = "alias".to_string();
    cmd.path = "".to_string();
    assert!(matches!(cmd.validate(), Err(LscmdError::Validation(_))));

    // Empty code
    cmd.path = "/path/to/file.sh".to_string();
    cmd.code = "".to_string();
    assert!(matches!(cmd.validate(), Err(LscmdError::Validation(_))));
}

fn sample() -> Command {
    Command {
        name: "ll".to_string(),
        cmd_type: "alias".to_string(),
        path: "/a.sh".to_string(),
        code: "ls -la".to_string(),
        file_mtime: 7,
        created_at: Some(3),
    }
}

fn complaint(cmd: &Command) -> String {
    match cmd.validate() {
        Err(LscmdError::Validation(message)) => message,
        other => panic!("unexpected: {:?}", other),
    }
}

#[test]
fn validation_reports_the_first_broken_field() {
    let mut cmd = sample();
    cmd.name = String::new();
    cmd.cmd_type = "builtin".to_string();
    assert_eq!(complaint(&cmd), "Invalid command name length for: ");
    cmd.name = "n".repeat(257);
    assert_eq!(complaint(&cmd), format!("Invalid command name length for: {}", "n".repeat(257)));
    cmd.name = "n".repeat(256);
    assert_eq!(complaint(&cmd), "Invalid command type: builtin");
    cmd.cmd_type = "Alias".to_string();
    assert_eq!(complaint(&cmd), "Invalid command type: Alias");
    cmd.cmd_type = "function".to_string();
    cmd.path = String::new();
    cmd.code = String::new();
    assert_eq!(complaint(&cmd), "Command path cannot be empty");
    cmd.path = "p".to_string();
    assert_eq!(complaint(&cmd), "Command code cannot be empty");
    cmd.code = "c".to_string();
    assert!(cmd.validate().is_ok());
}

#[test]
fn name_length_is_counted_in_bytes() {
    let mut cmd = sample();
    cmd.name = "é".repeat(128);
    assert!(cmd.validate().is_ok());
    cmd.name = "é".repeat(129);
    assert!(cmd.validate().is_err());
}

#[test]
fn a_clone_is_equal_to_its_source() {
    let cmd = sample();
    assert_eq!(cmd.clone(), cmd);
}

#[test]
fn schema_creates_the_table_and_its_three_indexes() {
    let sql = get_schema();
    assert!(sql.contains("CREATE TABLE IF NOT EXISTS commands"));
    assert!(sql.contains("name TEXT PRIMARY KEY NOT NULL"));
    assert!(sql.contains("CREATE INDEX IF NOT EXISTS idx_type ON commands(cmd_type);"));
    assert!(sql.contains("CREATE INDEX IF NOT EXISTS idx_path ON commands(path);"));
    assert!(sql.contains("CREATE INDEX IF NOT EXISTS idx_name_lower ON commands(LOWER(name));"));
}
