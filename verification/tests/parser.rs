use lscmd::command::{Command, CommandType};
use lscmd::parser::{parse_line, parse_shell_commands};

#[test]
fn test_parse_aliases() {
    let content = r#"
            alias ll='ls -la'
            alias gs='git status'
        "#;

    let commands = parse_shell_commands(content);
    assert_eq!(commands.len(), 2);
    assert_eq!(commands[0].name, "ll");
    assert_eq!(commands[0].command_type, CommandType::Alias);
    assert_eq!(commands[1].name, "gs");
    assert_eq!(commands[1].command_type, CommandType::Alias);
}

#[test]
fn test_parse_functions() {
    let content = r#"
            function my_func() {
                echo "hello"
            }
            
            another_func() {
                echo "world"  
            }
        "#;

    let commands = parse_shell_commands(content);
    assert_eq!(commands.len(), 2);
    assert_eq!(commands[0].name, "my_func");
    assert_eq!(commands[0].command_type, CommandType::Function);
    assert_eq!(commands[1].name, "another_func");
    assert_eq!(commands[1].command_type, CommandType::Function);
}

#[test]
fn test_parse_mixed_commands() {
    let content = r#"
            alias ll='ls -la'
            function test_func() {
                echo "test"
            }
            my_func() {
                echo "another"
            }
            alias gs='git status'
        "#;

    let commands = parse_shell_commands(content);
    assert_eq!(commands.len(), 4);
}

fn line(text: &str) -> Option<(String, CommandType, String, bool)> {
    let chars: Vec<char> = text.chars().collect();
    parse_line(&chars).map(|c| (c.name, c.command_type, c.body, c.unterminated))
}

fn found(name: &str, kind: CommandType, body: &str, unterminated: bool) -> Option<(String, CommandType, String, bool)> {
    Some((name.to_string(), kind, body.to_string(), unterminated))
}

#[test]
fn an_alias_whose_value_looks_like_a_function_is_one_alias() {
    let commands = parse_shell_commands("alias deploy='foo() { true; }'");
    assert_eq!(commands.len(), 1);
    assert_eq!(commands[0].name, "deploy");
    assert_eq!(commands[0].command_type, CommandType::Alias);
    assert_eq!(commands[0].body, "foo() { true; }");
    assert!(!commands[0].unterminated);
}

#[test]
fn alias_values_are_read_between_the_first_pair_of_quotes() {
    assert_eq!(line("alias ll='ls -la'"), found("ll", CommandType::Alias, "ls -la", false));
    assert_eq!(
        line("alias gco=\"git checkout\" # comment"),
        found("gco", CommandType::Alias, "git checkout", false)
    );
    assert_eq!(
        line("alias x='echo \"hello\"'"),
        found("x", CommandType::Alias, "echo \"hello\"", false)
    );
    assert_eq!(line("alias e=''"), found("e", CommandType::Alias, "", false));
    assert_eq!(line("alias \t my-name_1='v'"), found("my-name_1", CommandType::Alias, "v", false));
}

#[test]
fn an_alias_without_a_closed_quote_keeps_the_rest_of_the_line() {
    assert_eq!(
        line("alias bad=\"something"),
        found("bad", CommandType::Alias, "something", true)
    );
    assert_eq!(line("alias bad='"), found("bad", CommandType::Alias, "", true));
    assert_eq!(line("alias x=echo \"hi"), found("x", CommandType::Alias, "echo \"hi", true));
    assert_eq!(line("alias plain=ls -la"), found("plain", CommandType::Alias, "ls -la", false));
    assert_eq!(line("alias none="), found("none", CommandType::Alias, "", false));
}

#[test]
fn functions_are_read_in_both_forms() {
    assert_eq!(
        line("function my_func() {"),
        found("my_func", CommandType::Function, "function my_func() {", false)
    );
    assert_eq!(
        line("function gg { git status; }"),
        found("gg", CommandType::Function, "function gg { git status; }", false)
    );
    assert_eq!(line("function  spaced"), found("spaced", CommandType::Function, "function  spaced", false));
    assert_eq!(line("build() {"), found("build", CommandType::Function, "build() {", false));
    assert_eq!(line("build ()"), found("build", CommandType::Function, "build ()", false));
    assert_eq!(line("a-b_c9(){ :; }"), found("a-b_c9", CommandType::Function, "a-b_c9(){ :; }", false));
    assert_eq!(
        line("function_name() {"),
        found("function_name", CommandType::Function, "function_name() {", false)
    );
}

#[test]
fn lines_are_read_as_the_three_patterns_read_them() {
    let alias = regex::Regex::new(r"^\s*alias\s+([a-zA-Z0-9_-]+)=").unwrap();
    let function = regex::Regex::new(r"^\s*function\s+([a-zA-Z0-9_-]+)").unwrap();
    let bare = regex::Regex::new(r"^([a-zA-Z0-9_-]+)\s*\(\)\s*\{?").unwrap();
    let heads = ["alias", "alias ", "alias\t", "alias\u{a0}", "function", "function ", "function\u{2003}", "", "x", "al"];
    let names = ["", "ll", "a-b_9", "é", "function", "alias", "a b"];
    let tails = ["", "=", "='v'", "=\"v", "()", " ()", "( )", "() {", " () {", "\u{3000}()", "=()", " {", "(", ")"];
    let mut seen = 0;
    for head in heads {
        for name in names {
            for tail in tails {
                let text = format!("{}{}{}", head, name, tail);
                let text = text.trim();
                let expected = if let Some(c) = alias.captures(text) {
                    Some((c[1].to_string(), CommandType::Alias))
                } else if let Some(c) = function.captures(text) {
                    Some((c[1].to_string(), CommandType::Function))
                } else if let Some(c) = bare.captures(text) {
                    if text.starts_with("alias ") {
                        None
                    } else {
                        Some((c[1].to_string(), CommandType::Function))
                    }
                } else {
                    None
                };
                let got = line(text).map(|(name, kind, _, _)| (name, kind));
                assert_eq!(got, expected, "line {:?}", text);
                if expected.is_some() {
                    seen += 1;
                }
            }
        }
    }
    assert!(seen > 100);
}

#[test]
fn lines_that_no_rule_reads_define_nothing() {
    assert_eq!(line("echo hello"), None);
    assert_eq!(line("aliasx='y'"), None);
    assert_eq!(line("alias ll 'ls'"), None);
    assert_eq!(line("alias =x"), None);
    assert_eq!(line("alias bad name='x'"), None);
    assert_eq!(line("function"), None);
    assert_eq!(line("function ()"), found("function", CommandType::Function, "function ()", false));
    assert_eq!(line("functionfoo"), None);
    assert_eq!(line("build( )"), None);
    assert_eq!(line("build("), None);
    assert_eq!(line("()"), None);
    assert_eq!(line("naïve() {"), None);
    assert_eq!(line("}"), None);
    assert_eq!(line(""), None);
}

#[test]
fn a_line_that_starts_with_alias_is_never_a_function() {
    assert_eq!(line("alias ()"), None);
    assert_eq!(line("alias  ()"), None);
    assert_eq!(line("alias() {"), found("alias", CommandType::Function, "alias() {", false));
}

#[test]
fn blank_lines_and_comments_are_passed_over() {
    let content = "# alias no='x'\n\n   \t\n  # build() {\nalias yes='y'\r\n\u{a0}function f\u{2003}\n#";
    let commands = parse_shell_commands(content);
    assert_eq!(commands.len(), 2);
    assert_eq!(commands[0].name, "yes");
    assert_eq!(commands[0].body, "y");
    assert_eq!(commands[1].name, "f");
    assert_eq!(commands[1].body, "function f");
    assert!(parse_shell_commands("").is_empty());
    assert!(parse_shell_commands("\n\n").is_empty());
}

#[test]
fn definitions_come_in_the_order_of_their_lines() {
    let commands = parse_shell_commands("b() {\nalias a='1'\nfunction c\nalias a='2'");
    let names: Vec<(&str, &str)> = commands.iter().map(|c| (c.name.as_str(), c.body.as_str())).collect();
    assert_eq!(names, vec![("b", "b() {"), ("a", "1"), ("c", "function c"), ("a", "2")]);
}

#[test]
fn constructors_give_a_definition_without_a_body() {
    let alias = Command::new_alias("ll".to_string());
    assert_eq!(alias.name, "ll");
    assert_eq!(alias.command_type, CommandType::Alias);
    assert_eq!(alias.body, "");
    assert!(!alias.unterminated);
    let function = Command::new_function("f".to_string());
    assert_eq!(function.name, "f");
    assert_eq!(function.command_type, CommandType::Function);
    assert_eq!(function.body, "");
    let copy = function.clone();
    assert_eq!(copy.name, "f");
    assert_eq!(copy.command_type, CommandType::Function);
}
