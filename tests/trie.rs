use myshell::search::{first_word, Trie};

fn names(v: &[&str]) -> Vec<String> {
    v.iter().map(|s| s.to_string()).collect()
}

fn walk(t: &mut Trie, s: &str) {
    t.reset();
    for c in s.chars() {
        t.search(c);
    }
}

#[test]
fn texts_are_sorted_and_distinct() {
    let t = Trie::new(names(&["ls", "cat", "ls", "cd", "c"]), &Vec::new());
    assert_eq!(t.texts, names(&["c", "cat", "cd", "ls"]));
}

#[test]
fn every_text_is_in_its_own_range() {
    let inputs = ["git", "gitk", "grep", "g", "ls", "lsblk", "é", "éa"];
    let mut t = Trie::new(names(&inputs), &Vec::new());
    for text in inputs {
        walk(&mut t, text);
        let r = t.get_range();
        let k = t.texts.iter().position(|x| x == text).unwrap();
        assert!(r.start <= k && k < r.end, "{} not in {:?}", text, r);
    }
}

#[test]
fn range_of_a_prefix() {
    let mut t = Trie::new(names(&["gcc", "git", "gitk", "ls"]), &Vec::new());
    walk(&mut t, "gi");
    assert_eq!(t.get_range(), 1..3);
    walk(&mut t, "");
    assert_eq!(t.get_range(), 0..4);
}

#[test]
fn unmatched_search_stays_unmatched() {
    let mut t = Trie::new(names(&["git", "ls"]), &Vec::new());
    walk(&mut t, "gx");
    assert_eq!(t.get_range(), 0..0);
    assert_eq!(t.get_max(), None);
    t.search('i');
    assert_eq!(t.get_range(), 0..0);
    assert!(t.get_match_texts().is_empty());
    t.reset();
    assert_eq!(t.get_range(), 0..2);
}

#[test]
fn history_counts_first_words() {
    let hist = vec![(0, "git status".to_string()), (0, "  git log".to_string()), (1, "ls".to_string()), (0, "gi".to_string())];
    let mut t = Trie::new(names(&["gcc", "git", "ls"]), &hist);
    walk(&mut t, "g");
    assert_eq!(t.get_max(), Some(1));
    assert_eq!(t.get_match_texts(), names(&["git", "gcc"]));
}

#[test]
fn ties_go_to_the_first_text() {
    let mut t = Trie::new(names(&["b", "a", "c"]), &Vec::new());
    walk(&mut t, "");
    assert_eq!(t.get_max(), Some(0));
    assert_eq!(t.get_match_texts(), names(&["a", "b", "c"]));
}

#[test]
fn counting_moves_a_text_first() {
    let mut t = Trie::new(names(&["cat", "cd", "cp"]), &vec![(0, "cat x".to_string())]);
    for _ in 0..2 {
        t.add_cnt(&"cp".to_string());
    }
    walk(&mut t, "c");
    assert_eq!(t.get_match_texts(), names(&["cp", "cat", "cd"]));
    t.add_cnt(&"cat".to_string());
    walk(&mut t, "c");
    assert_eq!(t.get_match_texts(), names(&["cat", "cd", "cp"]));
}

#[test]
fn counting_an_unknown_text_changes_nothing() {
    let mut t = Trie::new(names(&["ab", "b"]), &Vec::new());
    t.add_cnt(&"a".to_string());
    t.add_cnt(&"zz".to_string());
    walk(&mut t, "");
    assert_eq!(t.get_match_texts(), names(&["ab", "b"]));
}

#[test]
fn empty_trie() {
    let mut t = Trie::new(Vec::new(), &Vec::new());
    assert_eq!(t.get_range(), 0..0);
    assert!(t.get_match_texts().is_empty());
    t.search('a');
    assert_eq!(t.get_max(), None);
}

#[test]
fn first_words() {
    assert_eq!(first_word("  git  log"), Some("git".to_string()));
    assert_eq!(first_word("\t\n"), None);
    assert_eq!(first_word("ls"), Some("ls".to_string()));
}
