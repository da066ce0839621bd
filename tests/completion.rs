use myshell::complete::{comp, get_comp_type, path_order, shown_names, CompType, Completion, DirEntryInfo};
use myshell::utils::Env;

fn env_with(paths: &[&str], hist: &[(i32, &str)]) -> Env {
    Env::new(
        "user".to_string(),
        "host".to_string(),
        "/home/user".to_string(),
        paths.iter().map(|s| s.to_string()).collect(),
        hist.iter().map(|(s, c)| (*s, c.to_string())).collect(),
    )
}

fn done(c: Completion) -> (usize, Vec<String>) {
    match c {
        Completion::Done(a, v) => (a, v),
        other => panic!("expected a finished completion, got {:?}", other),
    }
}

#[test]
fn empty_line_lists_every_name_most_used_first() {
    let mut env = env_with(&["ls", "echo", "cat"], &[(0, "ls -l"), (0, "ls"), (0, "echo")]);
    let (anchor, v) = done(comp(String::new(), &mut env));
    assert_eq!(anchor, 0);
    assert_eq!(v, vec!["ls", "cat", "cd", "echo", "exit"]);
}

#[test]
fn prefix_of_a_name() {
    let mut env = env_with(&["echo", "ed", "ls"], &[]);
    let (anchor, v) = done(comp("ec".to_string(), &mut env));
    assert_eq!(anchor, 0);
    assert_eq!(v[0], "echo");
    assert_eq!(v, vec!["echo"]);
}

#[test]
fn name_after_a_pipe() {
    let mut env = env_with(&["wc", "ls"], &[]);
    let (anchor, v) = done(comp("ls | w".to_string(), &mut env));
    assert_eq!(anchor, 5);
    assert_eq!(v, vec!["wc"]);
}

#[test]
fn cd_completes_directories_from_root() {
    let mut env = env_with(&["ls"], &[]);
    match comp("cd /us".to_string(), &mut env) {
        Completion::ListDir { dir, query, dirs_only, anchor } => {
            assert_eq!(dir, "/");
            assert_eq!(query, "us");
            assert!(dirs_only);
            assert_eq!(anchor, 4);
        }
        other => panic!("{:?}", other),
    }
}

#[test]
fn tilde_alone_is_not_completed() {
    let mut env = env_with(&["echo"], &[]);
    assert_eq!(done(comp("echo ~".to_string(), &mut env)), (0, Vec::new()));
    assert_eq!(done(comp("echo ~bob".to_string(), &mut env)), (0, Vec::new()));
}

#[test]
fn trailing_space_completes_paths_here() {
    let mut env = env_with(&["echo"], &[]);
    match comp("echo ".to_string(), &mut env) {
        Completion::ListDir { dir, query, dirs_only, anchor } => {
            assert_eq!(dir, "./");
            assert_eq!(query, "");
            assert!(!dirs_only);
            assert_eq!(anchor, 5);
        }
        other => panic!("{:?}", other),
    }
}

#[test]
fn home_paths_expand() {
    let mut env = env_with(&["ls"], &[]);
    match comp("ls ~/src/ma".to_string(), &mut env) {
        Completion::ListDir { dir, query, dirs_only, anchor } => {
            assert_eq!(dir, "/home/user/src/");
            assert_eq!(query, "ma");
            assert!(!dirs_only);
            assert_eq!(anchor, 9);
        }
        other => panic!("{:?}", other),
    }
}

#[test]
fn word_that_looks_like_a_path_is_a_path() {
    let env = env_with(&["ls"], &[]);
    match get_comp_type(&"./scr".to_string(), &env) {
        CompType::Path((Some(p), true)) => assert_eq!(p, "./scr"),
        other => panic!("{:?}", other),
    }
}

#[test]
fn kinds_of_completion() {
    let env = env_with(&["ls"], &[]);
    assert!(matches!(get_comp_type(&"".to_string(), &env), CompType::Bin(None)));
    assert!(matches!(get_comp_type(&"ls ; ".to_string(), &env), CompType::Bin(None)));
    assert!(matches!(get_comp_type(&"ls > o".to_string(), &env), CompType::Path((Some(_), true))));
    assert!(matches!(get_comp_type(&"ls >> o".to_string(), &env), CompType::Invalid));
    assert!(matches!(get_comp_type(&"cd ".to_string(), &env), CompType::Path((None, false))));
}

#[test]
fn invalid_line_gives_nothing() {
    let mut env = env_with(&["ls"], &[]);
    assert_eq!(done(comp("ls >> x".to_string(), &mut env)), (0, Vec::new()));
}

fn entry(name: &str, is_dir: bool, accessed: u64) -> DirEntryInfo {
    DirEntryInfo { name: name.to_string(), is_dir, accessed }
}

#[test]
fn entries_are_filtered_and_ordered() {
    let entries = vec![
        entry("usr", true, 10),
        entry(".hidden", true, 50),
        entry("us.txt", false, 30),
        entry("bin", true, 99),
        entry("user", true, 20),
    ];
    let order = path_order(&entries, "us", false);
    assert_eq!(shown_names(&entries, &order), vec!["us.txt", "user/", "usr/"]);
    let dirs = path_order(&entries, "us", true);
    assert_eq!(shown_names(&entries, &dirs), vec!["user/", "usr/"]);
    let all = path_order(&entries, "", false);
    assert_eq!(shown_names(&entries, &all), vec!["bin/", "us.txt", "user/", "usr/"]);
    let dots = path_order(&entries, ".", false);
    assert_eq!(shown_names(&entries, &dots), vec![".hidden/"]);
}

#[test]
fn hidden_entries_shown_only_for_a_dot_query() {
    let entries = vec![entry(".a", false, 100), entry("b", false, 1)];
    assert_eq!(path_order(&entries, "", false), vec![1]);
    assert_eq!(path_order(&entries, ".", false), vec![0]);
}
