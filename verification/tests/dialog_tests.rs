use cokacdir::complete::Dialog;
use cokacdir::complete::DialogType;
use cokacdir::complete::PathCompletion;
use cokacdir::complete::TriggerOutcome;
use cokacdir::complete::apply_completion;
use cokacdir::complete::expand_path_string;
use cokacdir::complete::find_common_prefix;
use cokacdir::complete::matches_subsequence;
use cokacdir::complete::parse_path_for_completion;
use cokacdir::complete::trigger_path_completion;
use cokacdir::complete::update_path_suggestions;
use cokacdir::complete::ConflictResolution;
use cokacdir::complete::ConflictState;
use cokacdir::complete::advance_to_next_conflict;
use cokacdir::complete::resolve_current_conflict;

#[test]
fn test_common_prefix_single() {
    let suggestions = vec!["apple".to_string()];
    let common = find_common_prefix(&suggestions);
    assert_eq!(common, "apple");
}

#[test]
fn test_common_prefix_multiple() {
    let suggestions = vec![
        "application".to_string(),
        "apple".to_string(),
        "apartment".to_string(),
    ];
    let common = find_common_prefix(&suggestions);
    assert_eq!(common, "ap");
}

#[test]
fn test_common_prefix_same() {
    let suggestions = vec!["test".to_string(), "test".to_string()];
    let common = find_common_prefix(&suggestions);
    assert_eq!(common, "test");
}

#[test]
fn test_common_prefix_empty() {
    let suggestions: Vec<String> = vec![];
    let common = find_common_prefix(&suggestions);
    assert_eq!(common, "");
}

#[test]
fn test_common_prefix_no_common() {
    let suggestions = vec!["apple".to_string(), "banana".to_string()];
    let common = find_common_prefix(&suggestions);
    assert_eq!(common, "");
}

#[test]
fn test_common_prefix_strips_trailing_slash() {
    let suggestions = vec!["dir/".to_string(), "dir2/".to_string()];
    let common = find_common_prefix(&suggestions);
    assert_eq!(common, "dir");
}

#[test]
fn test_common_prefix_case_insensitive_from_first() {
    let suggestions = vec!["Apple.txt".to_string(), "APRICOT.txt".to_string()];
    let common = find_common_prefix(&suggestions);
    assert_eq!(common, "Ap");
}

#[test]
fn test_path_completion_default() {
    let completion = PathCompletion::default();
    assert!(completion.suggestions.is_empty());
    assert_eq!(completion.selected_index, 0);
    assert!(!completion.visible);
}

#[test]
fn test_dialog_creation() {
    let dialog = Dialog {
        dialog_type: DialogType::Copy,
        input: "/home/user/".to_string(),
        cursor_pos: 11,
        message: "Copy files".to_string(),
        completion: Some(PathCompletion::default()),
        selected_button: 0,
    };

    assert_eq!(dialog.dialog_type, DialogType::Copy);
    assert_eq!(dialog.input, "/home/user/");
    assert!(dialog.completion.is_some());
}

#[test]
fn test_expand_tilde() {
    if let Some(home) = dirs::home_dir() {
        let home_s = home.to_str().unwrap().to_string();
        let result = expand_path_string("~", Some(&home_s));
        assert_eq!(result, home_s);
    }
}

#[test]
fn test_expand_tilde_subpath() {
    if let Some(home) = dirs::home_dir() {
        let home_s = home.to_str().unwrap().to_string();
        let result = expand_path_string("~/Documents", Some(&home_s));
        assert_eq!(result, format!("{}/Documents", home_s));
    }
}

#[test]
fn test_expand_absolute_path() {
    let result = expand_path_string("/usr/bin", Some("/home/user"));
    assert_eq!(result, "/usr/bin");
}

#[test]
fn test_expand_relative_path() {
    let result = expand_path_string("relative/path", Some("/home/user"));
    assert_eq!(result, "relative/path");
}

#[test]
fn test_parse_path_trailing_slash() {
    let (base_dir, prefix) = parse_path_for_completion("/usr/", None);
    assert_eq!(base_dir, "/usr/");
    assert_eq!(prefix, "");
}

#[test]
fn test_parse_path_partial_name() {
    let (base_dir, prefix) = parse_path_for_completion("/usr/bi", None);
    assert_eq!(base_dir, "/usr");
    assert_eq!(prefix, "bi");
}

#[test]
fn test_parse_path_root() {
    let (base_dir, prefix) = parse_path_for_completion("/", None);
    assert_eq!(base_dir, "/");
    assert_eq!(prefix, "");
}

#[test]
fn test_parse_path_tilde() {
    if let Some(home) = dirs::home_dir() {
        let home_s = home.to_str().unwrap().to_string();
        let (base_dir, _prefix) = parse_path_for_completion("~/Doc", Some(&home_s));
        assert!(base_dir.starts_with(&home_s));
    }
}

#[test]
fn test_parse_path_lone_dot() {
    let (base_dir, prefix) = parse_path_for_completion(".", None);
    assert_eq!(base_dir, ".");
    assert_eq!(prefix, ".");
}

#[test]
fn test_matches_subsequence_scattered() {
    assert!(matches_subsequence("cascade", "lade") == false);
    assert!(matches_subsequence("volcanade", "lade"));
    assert!(!matches_subsequence("abc", "acb"));
    assert!(matches_subsequence("anything", ""));
}

#[test]
fn test_update_path_suggestions_existing_dir() {
    let mut dialog = Dialog {
        dialog_type: DialogType::Goto,
        input: "/tmp/te".to_string(),
        cursor_pos: 7,
        message: String::new(),
        completion: Some(PathCompletion::default()),
        selected_button: 0,
    };
    update_path_suggestions(&mut dialog, vec!["test.txt".to_string()]);
    let completion = dialog.completion.as_ref().unwrap();
    assert!(completion.visible);
    assert!(completion.suggestions.iter().any(|s| s.contains("test")));
}

#[test]
fn test_update_path_suggestions_no_match() {
    let mut dialog = Dialog {
        dialog_type: DialogType::Goto,
        input: "/tmp/xyz".to_string(),
        cursor_pos: 8,
        message: String::new(),
        completion: Some(PathCompletion::default()),
        selected_button: 0,
    };
    update_path_suggestions(&mut dialog, vec![]);
    let completion = dialog.completion.as_ref().unwrap();
    assert!(!completion.visible);
    assert!(completion.suggestions.is_empty());
}

#[test]
fn test_apply_completion_directory() {
    let mut dialog = Dialog {
        dialog_type: DialogType::Goto,
        input: "/usr/lo".to_string(),
        cursor_pos: 7,
        message: String::new(),
        completion: Some(PathCompletion::default()),
        selected_button: 0,
    };
    apply_completion(&mut dialog, "/usr", "local/");
    assert_eq!(dialog.input, "/usr/local/");
    assert_eq!(dialog.cursor_pos, 11);
}

#[test]
fn test_trigger_path_completion_unique() {
    let mut dialog = Dialog {
        dialog_type: DialogType::Goto,
        input: "/usr/lo".to_string(),
        cursor_pos: 7,
        message: String::new(),
        completion: Some(PathCompletion::default()),
        selected_button: 0,
    };
    let outcome = trigger_path_completion(&mut dialog, "/usr", 2, &vec!["local/".to_string()]);
    assert_eq!(outcome, TriggerOutcome::Applied);
    assert_eq!(dialog.input, "/usr/local/");
}

#[test]
fn conflict_resolution_collects_decisions() {
    let mk = || ConflictState {
        conflicts: vec![
            ("/s/a".to_string(), "/d/a".to_string(), "a".to_string()),
            ("/s/b".to_string(), "/d/b".to_string(), "b".to_string()),
            ("/s/c".to_string(), "/d/c".to_string(), "c".to_string()),
        ],
        current_index: 0,
        files_to_overwrite: vec![],
        files_to_skip: vec![],
        is_move_operation: false,
    };
    let mut st = mk();
    assert!(!resolve_current_conflict(&mut st, ConflictResolution::Overwrite));
    assert!(!resolve_current_conflict(&mut st, ConflictResolution::Skip));
    assert!(resolve_current_conflict(&mut st, ConflictResolution::Overwrite));
    assert_eq!(st.files_to_overwrite, vec!["/s/a".to_string(), "/s/c".to_string()]);
    assert_eq!(st.files_to_skip, vec!["/s/b".to_string()]);

    let mut st2 = mk();
    assert!(!resolve_current_conflict(&mut st2, ConflictResolution::Skip));
    assert!(resolve_current_conflict(&mut st2, ConflictResolution::OverwriteAll));
    assert_eq!(st2.files_to_overwrite, vec!["/s/b".to_string(), "/s/c".to_string()]);
    assert_eq!(st2.files_to_skip, vec!["/s/a".to_string()]);

    let mut st3 = mk();
    assert!(resolve_current_conflict(&mut st3, ConflictResolution::SkipAll));
    assert_eq!(st3.files_to_skip.len(), 3);

    let mut st4 = mk();
    assert!(!advance_to_next_conflict(&mut st4));
    assert_eq!(st4.current_index, 1);
}
