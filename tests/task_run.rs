use gitter::cli::parse_key_val;
use gitter::git::{branch_or_setting, commit_ops, git_args, sync_ops, GitOp};
use gitter::settings::Settings;
use gitter::task::{Task, TaskError};

fn settings(items: &[(&str, &str)]) -> Settings {
    let mut s = Settings::new();
    for (k, v) in items {
        s.insert(k, v);
    }
    s
}

fn args(items: &[(&str, &str)]) -> Vec<(String, String)> {
    items.iter().map(|(k, v)| (k.to_string(), v.to_string())).collect()
}

fn task(s: Settings, a: Vec<(String, String)>) -> Task {
    Task::new("deploy".to_string(), "/repo/.git/gitter".to_string(), s, a)
}

fn lines(items: &[&str]) -> Vec<String> {
    items.iter().map(|l| l.to_string()).collect()
}

#[test]
fn settings_placeholder_resolves() {
    let t = task(settings(&[("branch", "main")]), vec![]);
    assert_eq!(t.resolve("git checkout ${branch}"), "git checkout main");
}

#[test]
fn argument_placeholder_resolves() {
    let t = task(Settings::new(), args(&[("msg", "fix bug")]));
    assert_eq!(t.resolve("git commit -m {{msg}}"), "git commit -m fix bug");
}

#[test]
fn resolution_does_not_expand_twice() {
    let t = task(settings(&[("a", "${b}"), ("b", "x")]), vec![]);
    assert_eq!(t.replace_settings("${a}"), "${b}");
    assert_eq!(t.replace_settings("${b}${a}"), "x${b}");
}

#[test]
fn unknown_placeholders_stay() {
    let t = task(settings(&[("a", "1")]), args(&[("x", "2")]));
    assert_eq!(t.resolve("${zz} {{yy}} ${a} {{x}} ${a"), "${zz} {{yy}} 1 2 ${a");
}

#[test]
fn keys_holding_a_brace_resolve() {
    let t = task(settings(&[("a}b", "X")]), vec![]);
    assert_eq!(t.replace_settings("${a}b} ${a}"), "X ${a}");
    let u = task(settings(&[("a", "1"), ("a}b", "2")]), vec![]);
    assert_eq!(u.replace_settings("${a}b}"), "1b}");
}

#[test]
fn duplicate_argument_keys_first_pair_wins() {
    let t = task(Settings::new(), args(&[("m", "first"), ("m", "second")]));
    assert_eq!(t.replace_args("{{m}} and {{m}}"), "first and first");
}

#[test]
fn later_argument_does_not_touch_text_an_earlier_one_inserted() {
    let t = task(Settings::new(), args(&[("a", "{{b}}"), ("b", "x")]));
    assert_eq!(t.replace_args("{{a}}"), "{{b}}");
    assert_eq!(t.replace_args("{{a}} {{b}}"), "{{b}} x");
}

#[test]
fn argument_placeholders_resolve_in_one_pass() {
    let t = task(Settings::new(), args(&[("x", "{{y}}"), ("y", "{{x}}")]));
    assert_eq!(t.replace_args("{{y}}{{x}}{{z}}"), "{{x}}{{y}}{{z}}");
    assert_eq!(t.replace_args("{{{x}}}"), "{{{y}}}");
}
#[test]
fn settings_value_may_hold_argument_placeholder() {
    let t = task(settings(&[("m", "{{msg}}")]), args(&[("msg", "hi")]));
    assert_eq!(t.resolve("commit -m ${m}"), "commit -m hi");
}

#[test]
fn task_path_is_name_with_txt_in_directory() {
    let t = task(Settings::new(), vec![]);
    assert_eq!(t.task_path(), "/repo/.git/gitter/deploy.txt");
    assert_eq!(t.task_name(), "deploy");
    let u = Task::new("x".to_string(), "dir/".to_string(), Settings::new(), vec![]);
    assert_eq!(u.task_path(), "dir/x.txt");
}

#[test]
fn blank_lines_are_skipped() {
    let t = task(Settings::new(), vec![]);
    let mut run = t.start(Some(&lines(&["", "  ", "git status"]))).unwrap();
    assert!(run.has_rules());
    let mut executed = Vec::new();
    while let Some(c) = run.next_command() {
        executed.push(c.clone());
        run.record(Ok(()));
    }
    assert_eq!(executed, vec![vec!["git".to_string(), "status".to_string()]]);
    assert!(run.is_finished());
}

#[test]
fn missing_task_file_is_task_not_found() {
    let t = task(Settings::new(), vec![]);
    assert!(matches!(t.start(None), Err(TaskError::TaskNotFound)));
}

#[test]
fn failing_line_does_not_stop_the_next() {
    let t = task(settings(&[("branch", "main")]), vec![]);
    let mut run = t.start(Some(&lines(&["checkout ${branch}", "status"]))).unwrap();
    assert_eq!(run.next_command().unwrap(), &vec!["checkout".to_string(), "main".to_string()]);
    run.record(Err(TaskError::NonZeroExit(1)));
    assert_eq!(run.next_command().unwrap(), &vec!["status".to_string()]);
    run.record(Err(TaskError::SpawnFailure));
    assert!(run.next_command().is_none());
    assert_eq!(
        run.failures(),
        &vec![(0, TaskError::NonZeroExit(1)), (1, TaskError::SpawnFailure)]
    );
}

#[test]
fn task_without_rules() {
    let t = task(Settings::new(), vec![]);
    let run = t.start(Some(&lines(&["", " \t"]))).unwrap();
    assert!(!run.has_rules());
    assert!(run.is_finished());
}

#[test]
fn commands_split_on_any_whitespace() {
    let t = task(Settings::new(), args(&[("msg", "fix  bug")]));
    let c = t.commands(&lines(&["  commit\t-m {{msg}} \r"]));
    assert_eq!(c, vec![vec!["commit", "-m", "fix", "bug"]]);
}

#[test]
fn key_value_arguments() {
    assert_eq!(parse_key_val("msg=a=b"), Ok(("msg".to_string(), "a=b".to_string())));
    assert_eq!(parse_key_val("k="), Ok(("k".to_string(), String::new())));
    assert_eq!(parse_key_val("novalue"), Err("Invalid key-value pair: novalue".to_string()));
}

#[test]
fn git_operation_arguments() {
    assert_eq!(git_args(&GitOp::Checkout("dev".to_string())), vec!["checkout", "dev"]);
    assert_eq!(git_args(&GitOp::Pull), vec!["pull"]);
    assert_eq!(git_args(&GitOp::Push("main".to_string())), vec!["push", "origin", "main"]);
    assert_eq!(git_args(&GitOp::Merge("dev".to_string())), vec!["merge", "dev"]);
    assert_eq!(git_args(&GitOp::Add), vec!["add", "."]);
    assert_eq!(git_args(&GitOp::Commit("fix".to_string())), vec!["commit", "-m", "fix"]);
}

#[test]
fn commit_needs_a_message() {
    assert!(commit_ops("  ").is_empty());
    let ops: Vec<Vec<String>> = commit_ops("fix bug").iter().map(git_args).collect();
    assert_eq!(ops, vec![vec!["add", "."], vec!["commit", "-m", "fix bug"]]);
}

#[test]
fn sync_sequence() {
    let ops: Vec<Vec<String>> = sync_ops("feat", "main", true, true).iter().map(git_args).collect();
    assert_eq!(
        ops,
        vec![
            vec!["checkout", "feat"],
            vec!["pull"],
            vec!["checkout", "main"],
            vec!["merge", "feat"],
            vec!["push", "origin", "main"],
        ]
    );
    assert!(sync_ops("feat", "main", false, false).is_empty());
    assert_eq!(sync_ops("feat", "main", false, true).len(), 1);
}

#[test]
fn branch_from_flag_or_setting() {
    let s = settings(&[("feature", "feat")]);
    assert_eq!(branch_or_setting(None, &s, "feature"), Some("feat".to_string()));
    assert_eq!(branch_or_setting(Some("x".to_string()), &s, "feature"), Some("x".to_string()));
    assert_eq!(branch_or_setting(None, &s, "local"), None);
}
