use gshell::tab::{builtin_descriptions, complete_command};

fn none() -> Vec<String> {
    Vec::new()
}

#[test]
fn test_builtin_descriptions_count() {
    let descs = builtin_descriptions();
    assert_eq!(descs.len(), 16);
}

#[test]
fn test_builtin_descriptions_all_have_names_and_descs() {
    for (name, desc) in builtin_descriptions() {
        assert!(!name.is_empty());
        assert!(!desc.is_empty());
    }
}

#[test]
fn test_builtin_descriptions_includes_key_builtins() {
    let descs = builtin_descriptions();
    let names: Vec<&str> = descs.iter().map(|(n, _)| *n).collect();
    assert!(names.contains(&"cd"));
    assert!(names.contains(&"echo"));
    assert!(names.contains(&"exit"));
    assert!(names.contains(&"export"));
    assert!(names.contains(&"test"));
    assert!(names.contains(&"["));
    assert!(names.contains(&"alias"));
    assert!(names.contains(&"history"));
}

#[test]
fn test_complete_command_exact_match() {
    let results = complete_command("cd", &none(), &none());
    assert!(!results.is_empty());
    assert!(results.iter().any(|c| c.replacement.trim() == "cd"));
}

#[test]
fn test_complete_command_prefix() {
    let results = complete_command("ec", &none(), &none());
    assert!(!results.is_empty());
    assert!(results.iter().any(|c| c.replacement.trim() == "echo"));
}

#[test]
fn test_complete_command_case_insensitive() {
    let results = complete_command("CD", &none(), &none());
    assert!(!results.is_empty());
    assert!(results.iter().any(|c| c.replacement.trim() == "cd"));
}

#[test]
fn test_complete_command_no_match() {
    let results = complete_command("zzznonexistent", &none(), &none());
    let builtins: Vec<_> = results.iter().collect();
    assert!(builtins.is_empty() || results.iter().all(|c| !c.replacement.trim().starts_with("zzznonexistent")));
}

#[test]
fn test_complete_command_empty_prefix() {
    let results = complete_command("", &none(), &none());
    assert!(results.len() >= 15);
}

#[test]
fn test_complete_command_replacement_has_trailing_space() {
    let results = complete_command("cd", &none(), &none());
    for c in &results {
        if c.replacement.trim() == "cd" {
            assert!(c.replacement.ends_with(' '));
        }
    }
}

#[test]
fn test_complete_command_sorted() {
    let results = complete_command("", &none(), &none());
    for w in results.windows(2) {
        assert!(w[0].replacement <= w[1].replacement);
    }
}

#[test]
fn path_commands_and_aliases_are_offered_once() {
    let cached = vec!["echo".to_string(), "eject".to_string(), "ls".to_string()];
    let aliases = vec!["ec".to_string(), "eject".to_string()];
    let results = complete_command("e", &cached, &aliases);
    let reps: Vec<&str> = results.iter().map(|c| c.replacement.as_str()).collect();
    assert_eq!(reps, vec!["ec ", "echo ", "eject ", "env ", "exit ", "export "]);
    let echo = results.iter().find(|c| c.replacement == "echo ").unwrap();
    assert_eq!(echo.display, "echo  -- Write arguments to standard output.");
    let ec = results.iter().find(|c| c.replacement == "ec ").unwrap();
    assert_eq!(ec.display, "ec  (alias)");
    assert_eq!(ec.description, "alias");
    let eject = results.iter().find(|c| c.replacement == "eject ").unwrap();
    assert_eq!(eject.display, "eject");
    assert_eq!(eject.description, "");
}

fn vars() -> Vec<(String, String)> {
    vec![
        ("PATH".to_string(), "/usr/bin:/bin".to_string()),
        ("HOME".to_string(), "/home/u".to_string()),
        ("PAGER".to_string(), "less".to_string()),
        ("LONG".to_string(), "é".repeat(30)),
    ]
}

#[test]
fn test_complete_variable_with_dollar() {
    let results = gshell::tab::complete_variable("$PATH", &vars());
    assert!(!results.is_empty());
    assert!(results.iter().any(|c| c.replacement.contains("PATH")));
}

#[test]
fn test_complete_variable_without_dollar() {
    let results = gshell::tab::complete_variable("PATH", &vars());
    assert!(!results.is_empty());
    assert!(results.iter().any(|c| c.replacement.contains("PATH")));
}

#[test]
fn test_complete_variable_replacement_has_dollar() {
    let results = gshell::tab::complete_variable("HOME", &vars());
    assert!(!results.is_empty());
    for c in &results {
        assert!(c.replacement.starts_with('$'));
    }
}

#[test]
fn test_complete_variable_sorted() {
    let results = gshell::tab::complete_variable("", &vars());
    for w in results.windows(2) {
        assert!(w[0].replacement <= w[1].replacement);
    }
}

#[test]
fn test_complete_variable_no_match() {
    let results = gshell::tab::complete_variable("$zzznonexistent_xyz_123", &vars());
    assert!(results.is_empty());
}

#[test]
fn variable_candidates_show_the_value_start() {
    let results = gshell::tab::complete_variable("$pa", &vars());
    let reps: Vec<&str> = results.iter().map(|c| c.replacement.as_str()).collect();
    assert_eq!(reps, vec!["${PAGER}", "${PATH}"]);
    assert_eq!(results[1].display, "${PATH}  = /usr/bin:/bin");
    assert_eq!(results[1].description, "/usr/bin:/bin");
    let long = gshell::tab::complete_variable("LO", &vars());
    assert_eq!(long[0].display, format!("${{LONG}}  = {}", "é".repeat(20)));
}

#[test]
fn command_completion_is_complete_and_each_once() {
    let cached = vec!["ls".to_string(), "echo".to_string(), "less".to_string(), "ls".to_string()];
    let aliases = vec!["ll".to_string(), "ls".to_string()];
    let r = complete_command("l", &cached, &aliases);
    let reps: Vec<&str> = r.iter().map(|c| c.replacement.as_str()).collect();
    assert_eq!(reps, vec!["less ", "ll ", "ls "]);
    let all = complete_command("", &cached, &aliases);
    for name in ["echo", "cd", "[", "ls", "less", "ll"] {
        assert!(all.iter().any(|c| c.replacement.trim() == name), "{}", name);
    }
    for i in 0..all.len() {
        for j in i + 1..all.len() {
            assert_ne!(all[i].replacement, all[j].replacement);
        }
    }
}
