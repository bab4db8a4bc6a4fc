use lscmd::command::CommandType;
use lscmd::config::{join, Config, XdgPaths};
use lscmd::error::LscmdError;
use lscmd::listing::SourceText;
use lscmd::scanner::ScanEntry;
use lscmd::{list_commands, scan_directory};
use std::path::Path;

fn entry(path: &str, is_file: bool) -> ScanEntry {
    ScanEntry {
        path: path.to_string(),
        is_file,
        extension: Path::new(path).extension().map(|e| e.to_string_lossy().into_owned()),
    }
}

#[test]
fn the_scan_keeps_shell_files_in_lexicographic_order() {
    let entries = vec![
        entry("/r/z.sh", true),
        entry("/r/sub", false),
        entry("/r/sub/b.sh", true),
        entry("/r/notes.txt", true),
        entry("/r/dir.sh", false),
        entry("/r/.sh", true),
        entry("/r/a.SH", true),
        entry("/r/a.sh", true),
        entry("/r/a.b.sh", true),
        entry("/r/sh", true),
        entry("/r/a.sh", true),
        entry("/r/é.sh", true),
    ];
    let found = scan_directory("/r", true, &entries).unwrap();
    assert_eq!(found, vec!["/r/a.b.sh", "/r/a.sh", "/r/a.sh", "/r/sub/b.sh", "/r/z.sh", "/r/é.sh"]);
    let mut expected: Vec<String> = found.clone();
    expected.sort();
    assert_eq!(found, expected);
}

#[test]
fn a_missing_root_and_a_root_without_shell_files_fail() {
    let entries = vec![entry("/r/a.sh", true)];
    match scan_directory("/r", false, &entries) {
        Err(LscmdError::NotFound(root)) => assert_eq!(root, "/r"),
        other => panic!("unexpected: {:?}", other),
    }
    match scan_directory("/r", true, &vec![entry("/r/a.txt", true), entry("/r/b.sh", false)]) {
        Err(LscmdError::Empty(root)) => assert_eq!(root, "/r"),
        other => panic!("unexpected: {:?}", other),
    }
    assert!(matches!(scan_directory("/r", true, &Vec::new()), Err(LscmdError::Empty(_))));
    assert_eq!(LscmdError::NotFound("/r".to_string()).message(), "目錄 '/r' 不存在。");
    assert_eq!(LscmdError::Empty("/r".to_string()).message(), "在 '/r' 中找不到任何 .sh 檔案。");
}

fn source(file_name: &str, content: &str) -> SourceText {
    SourceText { file_name: file_name.to_string(), content: content.to_string() }
}

#[test]
fn the_listing_is_sorted_by_file_and_by_name() {
    let listed = list_commands(&vec![
        source("git", "alias gs='git status'\nfunction gco {\nalias ga='git add'\nalias gs='again'\n"),
        source("empty", "# nothing\necho hi\n"),
        source("docker", "dps() {\n"),
        source("Apps", "alias z='zz'\n"),
    ]);
    let shape: Vec<(&str, Vec<(&str, CommandType, &str)>)> = listed
        .iter()
        .map(|f| {
            (
                f.file_name.as_str(),
                f.commands.iter().map(|c| (c.name.as_str(), c.command_type, c.body.as_str())).collect(),
            )
        })
        .collect();
    assert_eq!(
        shape,
        vec![
            ("Apps", vec![("z", CommandType::Alias, "zz")]),
            ("docker", vec![("dps", CommandType::Function, "dps() {")]),
            (
                "git",
                vec![
                    ("ga", CommandType::Alias, "git add"),
                    ("gco", CommandType::Function, "function gco {"),
                    ("gs", CommandType::Alias, "git status"),
                    ("gs", CommandType::Alias, "again"),
                ]
            ),
        ]
    );
    assert!(list_commands(&Vec::new()).is_empty());
}

#[test]
fn paths_are_joined_with_one_separator() {
    assert_eq!(join("/home/u", "lscmd"), "/home/u/lscmd");
    assert_eq!(join("/home/u/", "lscmd"), "/home/u/lscmd");
    assert_eq!(join("", "lscmd"), "lscmd");
    assert_eq!(join("/", "x"), "/x");
    assert_eq!(
        Path::new("/home/u").join("lscmd").join("commands.db").to_string_lossy(),
        join(&join("/home/u", "lscmd"), "commands.db")
    );
}

#[test]
fn base_directories_follow_the_environment() {
    let paths = XdgPaths::new(Some("/home/u".to_string()), None, None).unwrap();
    assert_eq!(paths.data_home, "/home/u/.local/share");
    assert_eq!(paths.config_home, "/home/u/.config");
    assert_eq!(paths.get_lscmd_data_dir(), "/home/u/.local/share/lscmd");
    assert_eq!(paths.get_lscmd_config_dir(), "/home/u/.config/lscmd");
    assert_eq!(paths.database_path(), "/home/u/.local/share/lscmd/commands.db");
    assert_eq!(paths.config_file_path(), "/home/u/.config/lscmd/config.json");

    let paths = XdgPaths::new(
        Some("/home/u".to_string()),
        Some("/home/u/custom_data".to_string()),
        Some("/home/u/custom_config/".to_string()),
    )
    .unwrap();
    assert_eq!(paths.data_home, "/home/u/custom_data");
    assert_eq!(paths.config_home, "/home/u/custom_config/");
    assert!(paths.database_path().ends_with("lscmd/commands.db"));
    assert!(paths.config_file_path().ends_with("lscmd/config.json"));
    assert_eq!(paths.config_file_path(), "/home/u/custom_config/lscmd/config.json");

    match XdgPaths::new(None, Some("/d".to_string()), Some("/c".to_string())) {
        Err(LscmdError::XdgError(message)) => assert_eq!(message, "Home directory not found"),
        other => panic!("unexpected: {:?}", other),
    }
}

#[test]
fn the_initial_configuration_points_below_the_home_directory() {
    let config = Config::initial("/home/u", "0.1.0");
    assert_eq!(config.alias_path, "/home/u/.aliases");
    assert_eq!(config.version, "0.1.0");
}

#[test]
fn errors_read_as_a_line_of_text() {
    let text = |e: LscmdError| e.message();
    assert_eq!(text(LscmdError::Database("locked".to_string())), "Database error: locked");
    assert_eq!(text(LscmdError::Io("file not found".to_string())), "IO error: file not found");
    assert_eq!(
        text(LscmdError::Parse { file: "a.sh".to_string(), line: 0, message: "odd".to_string() }),
        "Parse error in a.sh:0 - odd"
    );
    assert_eq!(
        text(LscmdError::Parse { file: "a.sh".to_string(), line: 1205, message: "odd".to_string() }),
        "Parse error in a.sh:1205 - odd"
    );
    assert_eq!(
        text(LscmdError::Parse { file: String::new(), line: usize::MAX, message: String::new() }),
        format!("Parse error in :{} - ", usize::MAX)
    );
    assert_eq!(text(LscmdError::Config("missing field".to_string())), "Config error: missing field");
    assert_eq!(text(LscmdError::XdgError("no home".to_string())), "XDG directory error: no home");
    assert_eq!(text(LscmdError::SearchPattern("bad".to_string())), "Search pattern error: bad");
    assert_eq!(text(LscmdError::DataIntegrity("dup".to_string())), "Data integrity error: dup");
    assert_eq!(text(LscmdError::Validation("empty".to_string())), "Validation error: empty");
}

fn indexes(rows: &[Vec<lscmd::layout::Cell>]) -> Vec<Vec<usize>> {
    rows.iter().map(|row| row.iter().map(|cell| cell.index).collect()).collect()
}

#[test]
fn names_run_down_the_columns() {
    let lengths = vec![3usize; 7];
    let rows = lscmd::layout::grid(&lengths, 3, 90);
    assert_eq!(indexes(&rows), vec![vec![0, 3, 6], vec![1, 4], vec![2, 5]]);
    let rows = lscmd::layout::grid(&lengths, 5, 90);
    assert_eq!(indexes(&rows), vec![vec![0, 2, 4, 6], vec![1, 3, 5]]);
    let rows = lscmd::layout::grid(&lengths, 1, 90);
    assert_eq!(indexes(&rows), (0..7).map(|i| vec![i]).collect::<Vec<_>>());
    let rows = lscmd::layout::grid(&lengths, 100, 90);
    assert_eq!(indexes(&rows), vec![(0..7).collect::<Vec<_>>()]);
    assert!(lscmd::layout::grid(&Vec::new(), 4, 90).is_empty());
    let rows = lscmd::layout::grid(&vec![1; 6], usize::MAX, 90);
    assert_eq!(indexes(&rows), vec![vec![0, 1, 2, 3, 4, 5]]);
}

#[test]
fn a_name_is_followed_by_what_fills_its_column() {
    // (90 - 2 * 5) / 5 = 16 characters per column
    let rows = lscmd::layout::grid(&vec![2, 13, 14, 16, 40], 5, 90);
    let padding: Vec<usize> = rows[0].iter().map(|cell| cell.padding).collect();
    assert_eq!(padding, vec![14, 3, 2, 2, 2]);
    // a terminal too narrow for its columns leaves two blanks
    let rows = lscmd::layout::grid(&vec![2, 0], 5, 9);
    let padding: Vec<usize> = rows[0].iter().map(|cell| cell.padding).collect();
    assert_eq!(padding, vec![2, 2]);
    let rows = lscmd::layout::grid(&vec![0], 3, 36);
    assert_eq!(rows[0][0], lscmd::layout::Cell { index: 0, padding: 10 });
}
