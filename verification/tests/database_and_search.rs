//! The catalog in memory, and searches over it.

use lscmd::database::operations::{CommandRepository, MemoryCommandRepository};
use lscmd::database::Command;
use lscmd::error::{LscmdError, Result};
use lscmd::search::SearchEngine;

fn setup_in_memory_db() -> Result<MemoryCommandRepository> {
    Ok(MemoryCommandRepository::new())
}

fn get_mock_commands() -> Vec<Command> {
    vec![
        Command {
            name: "GitCommit".to_string(),
            cmd_type: "alias".to_string(),
            path: "/files/g.sh".to_string(),
            code: "git commit -m".to_string(),
            file_mtime: 100,
            created_at: None,
        },
        Command {
            name: "DockerRun".to_string(),
            cmd_type: "function".to_string(),
            path: "/files/d.sh".to_string(),
            code: "docker run --rm -it".to_string(),
            file_mtime: 200,
            created_at: None,
        },
        Command {
            name: "rust_analyzer_status".to_string(),
            cmd_type: "function".to_string(),
            path: "/files/g.sh".to_string(), // Same path as GitCommit
            code: "echo 'Rust is running'".to_string(),
            file_mtime: 100,
            created_at: None,
        },
    ]
}

#[test]
fn test_phase2_schema_initialization() -> Result<()> {
    let repo = setup_in_memory_db()?;
    assert!(repo.health_check().is_ok());
    Ok(())
}

#[test]
fn test_search_engine_logic() -> Result<()> {
    let commands = get_mock_commands();
    let engine_word = SearchEngine::new(false);
    let engine_regex = SearchEngine::new(true);

    // Word search, case-insensitive
    assert_eq!(engine_word.search("gitcommit", &commands)?.len(), 1);
    // Word search, OR logic
    assert_eq!(engine_word.search("git docker", &commands)?.len(), 2);
    // Regex search, case-insensitive
    assert_eq!(engine_regex.search("^git", &commands)?.len(), 1);
    // Empty query
    assert_eq!(engine_word.search("", &commands)?.len(), 3);
    // No results
    assert!(engine_word.search("nonexistent", &commands)?.is_empty());
    // Invalid regex
    assert!(engine_regex.search("git(", &commands).is_err());

    Ok(())
}

#[test]
fn test_crud_insert_and_get() -> Result<()> {
    let mut repo = setup_in_memory_db()?;
    let mock_commands = get_mock_commands();

    // Insert one command
    repo.insert_command(&mock_commands[0])?;

    // Get it back (case-insensitively)
    let fetched = repo.get_command_by_name("gitcommit")?;
    assert!(fetched.is_some());
    assert_eq!(fetched.unwrap().name, "GitCommit");

    // Get something that doesn't exist
    let fetched_none = repo.get_command_by_name("nonexistent")?;
    assert!(fetched_none.is_none());

    Ok(())
}

#[test]
fn test_crud_batch_insert() -> Result<()> {
    let mut repo = setup_in_memory_db()?;
    let mock_commands = get_mock_commands();

    repo.batch_insert(&mock_commands)?;

    let fetched = repo.get_command_by_name("DockerRun")?;
    assert!(fetched.is_some());
    let fetched = repo.get_command_by_name("rust_analyzer_status")?;
    assert!(fetched.is_some());

    Ok(())
}

#[test]
fn test_crud_delete_by_path_and_get_mtime() -> Result<()> {
    let mut repo = setup_in_memory_db()?;
    let mock_commands = get_mock_commands();
    repo.batch_insert(&mock_commands)?;

    // Check mtime for a path with multiple commands
    let mtime = repo.get_file_mtime("/files/g.sh")?;
    assert_eq!(mtime, Some(100));

    // Delete by path
    let deleted_count = repo.delete_by_path("/files/g.sh")?;
    assert_eq!(deleted_count, 2);

    // Verify they are gone
    let fetched = repo.get_command_by_name("GitCommit")?;
    assert!(fetched.is_none());
    let fetched = repo.get_command_by_name("rust_analyzer_status")?;
    assert!(fetched.is_none());

    // Verify other commands remain
    let fetched_docker = repo.get_command_by_name("DockerRun")?;
    assert!(fetched_docker.is_some());

    Ok(())
}

#[test]
fn test_crud_clear_all() -> Result<()> {
    let mut repo = setup_in_memory_db()?;
    let mock_commands = get_mock_commands();
    repo.batch_insert(&mock_commands)?;

    let cleared_count = repo.clear_all()?;
    assert_eq!(cleared_count, 3);

    let fetched = repo.get_command_by_name("DockerRun")?;
    assert!(fetched.is_none());

    Ok(())
}

#[test]
fn test_repo_search_integration() -> Result<()> {
    let mut repo = setup_in_memory_db()?;
    let mock_commands = get_mock_commands();
    repo.batch_insert(&mock_commands)?;

    // Search using the repo, which integrates the search engine
    let engine = SearchEngine::new(false); // Word mode
    let results = repo.search_commands(&engine, "RUST DOCKER")?;

    assert_eq!(results.len(), 2);
    let names: Vec<_> = results.iter().map(|c| c.name.as_str()).collect();
    assert!(names.contains(&"DockerRun"));
    assert!(names.contains(&"rust_analyzer_status"));

    Ok(())
}

fn command(name: &str, kind: &str, path: &str, code: &str, mtime: i64) -> Command {
    Command {
        name: name.to_string(),
        cmd_type: kind.to_string(),
        path: path.to_string(),
        code: code.to_string(),
        file_mtime: mtime,
        created_at: None,
    }
}

fn names(commands: &[Command]) -> Vec<&str> {
    commands.iter().map(|c| c.name.as_str()).collect()
}

#[test]
fn a_later_write_replaces_the_record_of_its_name() {
    let mut repo = MemoryCommandRepository::new();
    let mut first = command("ll", "alias", "/a.sh", "ls -l", 1);
    first.created_at = Some(42);
    repo.insert_command(&first).unwrap();
    repo.insert_command(&command("gs", "alias", "/a.sh", "git status", 1)).unwrap();
    repo.batch_insert(&[
        command("ll", "function", "/b.sh", "ll() {", 5),
        command("zz", "alias", "/b.sh", "sleep", 5),
        command("ll", "alias", "/c.sh", "ls -la", 9),
    ])
    .unwrap();
    let all = repo.snapshot().unwrap();
    assert_eq!(names(&all), vec!["ll", "gs", "zz"]);
    let ll = repo.get_command_by_name("ll").unwrap().unwrap();
    assert_eq!(ll.cmd_type, "alias");
    assert_eq!(ll.path, "/c.sh");
    assert_eq!(ll.code, "ls -la");
    assert_eq!(ll.file_mtime, 9);
    assert_eq!(ll.created_at, Some(42));
    assert_eq!(repo.get_file_mtime("/a.sh").unwrap(), Some(1));
    assert_eq!(repo.get_file_mtime("/b.sh").unwrap(), Some(5));
}

#[test]
fn names_that_differ_in_case_are_different_keys() {
    let mut repo = MemoryCommandRepository::new();
    repo.insert_command(&command("Build", "alias", "/a.sh", "one", 1)).unwrap();
    repo.insert_command(&command("build", "alias", "/b.sh", "two", 1)).unwrap();
    assert_eq!(repo.snapshot().unwrap().len(), 2);
    assert_eq!(repo.get_command_by_name("BUILD").unwrap().unwrap().code, "one");
    assert_eq!(repo.delete_by_path("/a.sh").unwrap(), 1);
    assert_eq!(repo.get_command_by_name("BUILD").unwrap().unwrap().code, "two");
    assert!(repo.get_command_by_name("É").unwrap().is_none());
    repo.insert_command(&command("é", "alias", "/a.sh", "e", 1)).unwrap();
    assert!(repo.get_command_by_name("É").unwrap().is_none());
    assert!(repo.get_command_by_name("é").unwrap().is_some());
}

#[test]
fn deleting_by_path_leaves_other_paths_untouched() {
    let mut repo = MemoryCommandRepository::new();
    repo.batch_insert(&get_mock_commands()).unwrap();
    assert_eq!(repo.delete_by_path("/nowhere").unwrap(), 0);
    assert_eq!(repo.delete_by_path("/files/g.sh").unwrap(), 2);
    let left = repo.snapshot().unwrap();
    assert_eq!(left.len(), 1);
    assert_eq!(left[0], get_mock_commands()[1]);
    assert_eq!(repo.get_file_mtime("/files/g.sh").unwrap(), None);
    assert_eq!(repo.delete_by_path("/files/g.sh").unwrap(), 0);
}

#[test]
fn the_latest_modification_time_is_the_greatest_stored() {
    let mut repo = MemoryCommandRepository::new();
    assert_eq!(repo.get_file_mtime("/a.sh").unwrap(), None);
    repo.insert_command(&command("a", "alias", "/a.sh", "x", -5)).unwrap();
    repo.insert_command(&command("b", "alias", "/a.sh", "x", 7)).unwrap();
    repo.insert_command(&command("c", "alias", "/a.sh", "x", 3)).unwrap();
    repo.insert_command(&command("d", "alias", "/b.sh", "x", 99)).unwrap();
    assert_eq!(repo.get_file_mtime("/a.sh").unwrap(), Some(7));
    assert_eq!(repo.get_file_mtime("/A.sh").unwrap(), None);
}

#[test]
fn clearing_an_empty_catalog_removes_nothing() {
    let mut repo = MemoryCommandRepository::new();
    assert_eq!(repo.clear_all().unwrap(), 0);
    assert!(repo.snapshot().unwrap().is_empty());
    repo.batch_insert(&[]).unwrap();
    assert!(repo.snapshot().unwrap().is_empty());
}

#[test]
fn word_search_finds_the_union_of_its_words() {
    let commands = get_mock_commands();
    let engine = SearchEngine::new(false);
    let both = engine.search("git docker", &commands).unwrap();
    let git = engine.search("git", &commands).unwrap();
    let docker = engine.search("docker", &commands).unwrap();
    assert_eq!(git.iter().map(|c| c.name.as_str()).collect::<Vec<_>>(), vec!["GitCommit"]);
    assert_eq!(docker.iter().map(|c| c.name.as_str()).collect::<Vec<_>>(), vec!["DockerRun"]);
    assert_eq!(
        both.iter().map(|c| c.name.as_str()).collect::<Vec<_>>(),
        vec!["GitCommit", "DockerRun"]
    );
    let overlapping = engine.search("run  RUST\trun", &commands).unwrap();
    assert_eq!(
        overlapping.iter().map(|c| c.name.as_str()).collect::<Vec<_>>(),
        vec!["DockerRun", "rust_analyzer_status"]
    );
}

#[test]
fn word_search_sets_letter_case_aside_in_name_and_code() {
    let commands = vec![
        command("Straße", "alias", "/a.sh", "cd ÉCOLE", 1),
        command("plain", "alias", "/a.sh", "echo İ", 1),
    ];
    let engine = SearchEngine::new(false);
    assert_eq!(engine.search("STRASSE", &commands).unwrap().len(), 0);
    assert_eq!(engine.search("STRAßE", &commands).unwrap().len(), 1);
    assert_eq!(engine.search("école", &commands).unwrap().len(), 1);
    assert_eq!(engine.search("École", &commands).unwrap().len(), 1);
    assert_eq!(engine.search("PLAIN", &commands).unwrap().len(), 1);
    assert_eq!(engine.search("   ", &commands).unwrap().len(), 2);
    assert_eq!(engine.search("( [", &commands).unwrap().len(), 0);
}

#[test]
fn regex_search_matches_name_or_code_and_refuses_bad_patterns() {
    let commands = vec![
        command("gitlog", "alias", "/a.sh", "git log", 1),
        command("dockerlog", "alias", "/a.sh", "docker logs", 1),
    ];
    let engine = SearchEngine::new(true);
    let found = engine.search("^git", &commands).unwrap();
    assert_eq!(found.iter().map(|c| c.name.as_str()).collect::<Vec<_>>(), vec!["gitlog"]);
    assert_eq!(engine.search("^GIT", &commands).unwrap().len(), 1);
    assert_eq!(engine.search("logs$", &commands).unwrap().len(), 1);
    assert_eq!(engine.search("log", &commands).unwrap().len(), 2);
    assert_eq!(engine.search("git docker", &commands).unwrap().len(), 0);
    assert_eq!(engine.search("", &commands).unwrap().len(), 2);
    match engine.search("(", &commands) {
        Err(LscmdError::SearchPattern(message)) => assert!(message.starts_with("Invalid regex: ")),
        other => panic!("unexpected: {:?}", other.map(|v| v.len())),
    }
    assert!(SearchEngine::new(false).search("(", &commands).is_ok());
}

#[test]
fn searching_the_repository_reports_a_refused_pattern() {
    let mut repo = MemoryCommandRepository::new();
    repo.batch_insert(&get_mock_commands()).unwrap();
    let engine = SearchEngine::new(true);
    assert!(matches!(repo.search_commands(&engine, "git("), Err(LscmdError::SearchPattern(_))));
    let found = repo.search_commands(&engine, "^(docker|rust)").unwrap();
    assert_eq!(names(&found), vec!["DockerRun", "rust_analyzer_status"]);
    assert_eq!(repo.snapshot().unwrap().len(), 3);
}
