use git_index::workspace::{is_ignored, visit, Visit, Workspace};

#[test]
fn ignored_names() {
    for n in [".", "..", ".git", "target", ".idea", "cmake-build-debug"] {
        assert!(is_ignored(n), "{}", n);
    }
    for n in ["src", "targets", ".gitignore", "", "git", "Target"] {
        assert!(!is_ignored(n), "{}", n);
    }
}

#[test]
fn visit_decisions() {
    assert_eq!(visit(".git", true), Visit::Skip);
    assert_eq!(visit("target", false), Visit::Skip);
    assert_eq!(visit("src", true), Visit::Descend);
    assert_eq!(visit("main.rs", false), Visit::Keep);
}

#[test]
fn list_files_of_file_root() {
    let w = Workspace::new(String::from("notes.txt"));
    assert_eq!(w.list_files(false, vec![]), vec![String::from("notes.txt")]);
}

#[test]
fn list_files_of_dir_root() {
    let w = Workspace::new(String::from("."));
    let walked = vec![String::from("./b"), String::from("./a/c")];
    assert_eq!(w.list_files(true, walked.clone()), walked);
}
