use wwm::config::{Command, ConfigBuilder, ConfigError, Rule, parse_index};

fn lines(ls: &[&str]) -> Vec<String> {
    ls.iter().map(|l| l.to_string()).collect()
}

#[test]
fn workspace_line_reads_index_and_name() {
    match ConfigBuilder::parse_line("workspace 3 DELL U2415") {
        Ok(Some(Command::Workspace(i, name))) => {
            assert_eq!(i, 3);
            assert_eq!(name, "DELL U2415");
        }
        _ => panic!("not a workspace command"),
    }
}

#[test]
fn workspace_line_without_number_gives_nothing() {
    assert!(matches!(ConfigBuilder::parse_line("workspace x Left"), Ok(None)));
    assert!(matches!(ConfigBuilder::parse_line("workspace"), Ok(None)));
    assert!(matches!(ConfigBuilder::parse_line(""), Ok(None)));
}

#[test]
fn workspace_line_without_name_has_empty_name() {
    match ConfigBuilder::parse_line("workspace 2") {
        Ok(Some(Command::Workspace(i, name))) => {
            assert_eq!(i, 2);
            assert_eq!(name, "");
        }
        _ => panic!("not a workspace command"),
    }
}

#[test]
fn rule_lines_compile_patterns() {
    match ConfigBuilder::parse_line("rule managed ^Firefox .*") {
        Ok(Some(Command::RuleManaged(rule))) => {
            assert_eq!(rule.pattern(), "^Firefox .*");
            assert!(rule.is_match("Firefox Nightly"));
            assert!(!rule.is_match("Chrome"));
        }
        _ => panic!("not a managed rule"),
    }
    match ConfigBuilder::parse_line("rule exclude Settings") {
        Ok(Some(Command::RuleExclude(rule))) => assert_eq!(rule.pattern(), "Settings"),
        _ => panic!("not an exclude rule"),
    }
}

#[test]
fn unknown_command_is_refused() {
    match ConfigBuilder::parse_line("layout tall") {
        Err(ConfigError::UnknownCommand(w)) => assert_eq!(w, "layout"),
        _ => panic!("accepted"),
    }
}

#[test]
fn unknown_rule_kind_is_refused() {
    match ConfigBuilder::parse_line("rule float x") {
        Err(ConfigError::InvalidRuleKind(k)) => assert_eq!(k, "float"),
        _ => panic!("accepted"),
    }
}

#[test]
fn invalid_pattern_is_refused() {
    match ConfigBuilder::parse_line("rule managed (unclosed") {
        Err(ConfigError::InvalidPattern(p)) => assert_eq!(p, "(unclosed"),
        _ => panic!("accepted"),
    }
}

#[test]
fn first_bad_line_gives_the_error() {
    match ConfigBuilder::new(&lines(&["workspace 0 A", "bogus", "rule float x"])) {
        Err(e) => assert_eq!(e, ConfigError::UnknownCommand("bogus".to_string())),
        Ok(_) => panic!("accepted"),
    }
}

#[test]
fn build_sorts_workspaces_stably() {
    let builder = ConfigBuilder::new(&lines(&[
        "workspace 2 C",
        "rule managed a",
        "workspace 0 A",
        "workspace 2 D",
        "rule exclude b",
        "workspace 1 B",
    ]))
    .ok()
    .unwrap();
    let cfg = builder.build();
    assert_eq!(cfg.get_workspaces_monitors(), &vec!["A".to_string(), "B".to_string(), "C".to_string(), "D".to_string()]);
    assert!(cfg.is_managed("xay"));
    assert!(!cfg.is_managed("xyz"));
    assert!(cfg.is_excluded("abc"));
    assert!(!cfg.is_excluded("xyz"));
}

#[test]
fn indexes_read_like_usize_parse() {
    assert_eq!(parse_index("42"), Some(42));
    assert_eq!(parse_index("+7"), Some(7));
    assert_eq!(parse_index("007"), Some(7));
    assert_eq!(parse_index(""), None);
    assert_eq!(parse_index("+"), None);
    assert_eq!(parse_index("-1"), None);
    assert_eq!(parse_index("4x"), None);
    assert_eq!(parse_index("18446744073709551615"), Some(usize::MAX));
    assert_eq!(parse_index("18446744073709551616"), None);
}

#[test]
fn invalid_rule_pattern_gives_no_rule() {
    assert!(Rule::new("[a-").is_none());
    assert!(Rule::new("a+").is_some());
}
