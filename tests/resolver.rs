use file_tree::resolver::{env_names, resolve_line};
use file_tree::SnapshotError;

#[test]
fn variable_segment_is_substituted() {
    let line = "/home/$USER/.config";
    let names = env_names(line);
    assert_eq!(names, vec!["USER".to_string()]);
    let r = resolve_line(line, &vec![Some("alice".to_string())]);
    assert_eq!(r, Ok("/home/alice/.config".to_string()));
}

#[test]
fn unset_variable_fails() {
    let r = resolve_line("/home/$USER/.config", &vec![None]);
    assert_eq!(r, Err(SnapshotError::MissingEnvVar("USER".to_string())));
}

#[test]
fn first_unset_variable_is_named() {
    let line = "/$A/$B/$C";
    assert_eq!(env_names(line), vec!["A".to_string(), "B".to_string(), "C".to_string()]);
    let r = resolve_line(line, &vec![Some("x".to_string()), None, None]);
    assert_eq!(r, Err(SnapshotError::MissingEnvVar("B".to_string())));
}

#[test]
fn leading_variable_keeps_its_value_as_written() {
    let r = resolve_line("$HOME/.config", &vec![Some("/home/user".to_string())]);
    assert_eq!(r, Ok("/home/user/.config".to_string()));
}

#[test]
fn plain_and_missing_paths_are_kept() {
    assert!(env_names("/hlkj/ljoi/lj").is_empty());
    assert_eq!(resolve_line("/hlkj/ljoi/lj", &vec![]), Ok("/hlkj/ljoi/lj".to_string()));
    assert_eq!(resolve_line("a//b/", &vec![]), Ok("a//b/".to_string()));
}

#[test]
fn several_variables_in_order() {
    let r = resolve_line("/$A/mid/$B", &vec![Some("one".to_string()), Some("two".to_string())]);
    assert_eq!(r, Ok("/one/mid/two".to_string()));
}

#[test]
fn test_file_paths_from_config() {
    let home = "/home/user".to_string();
    let lines = ["$HOME/.config", "/home/user/.local", "/hlkj/ljoi/lj"];
    let mut out = Vec::new();
    for line in lines {
        let values: Vec<Option<String>> = env_names(line)
            .iter()
            .map(|n| if n == "HOME" { Some(home.clone()) } else { None })
            .collect();
        out.push(resolve_line(line, &values).unwrap());
    }
    assert_eq!(
        vec![format!("{}/.config", home), "/home/user/.local".to_string(), "/hlkj/ljoi/lj".to_string()],
        out
    );
}
