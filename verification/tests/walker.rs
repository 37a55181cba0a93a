use move_numeric_files::plan_tree;
use move_numeric_files::walker::{FileWalker, FsNode, Walker};

/// A visitor that records everything it is handed.
struct TestWalker {
    seen_paths: Vec<Vec<String>>,
    seen_directories: Vec<String>,
    seen_files: Vec<String>,
    walk_executed: bool,
}

impl TestWalker {
    fn new() -> TestWalker {
        TestWalker {
            seen_paths: vec![],
            seen_directories: vec![],
            seen_files: vec![],
            walk_executed: false,
        }
    }
}

impl Walker for TestWalker {
    fn visit(&mut self, path: &Vec<String>, directories: &Vec<String>, files: &Vec<String>) {
        self.walk_executed = true;
        self.seen_paths.push(path.clone());
        self.seen_directories.extend(directories.iter().cloned());
        self.seen_files.extend(files.iter().cloned());
    }
}

fn names(list: &[&str]) -> Vec<String> {
    list.iter().map(|s| s.to_string()).collect()
}

fn leaf(name: &str, files: &[&str]) -> FsNode {
    FsNode {
        name: name.to_string(),
        files: names(files),
        directories: Vec::new(),
    }
}

#[test]
fn walk_test_files_with_closure() {
    let test_files = vec!["first", "second"]
        .iter()
        .cloned()
        .map(String::from)
        .collect::<Vec<_>>();
    let root = FsNode {
        name: "root".to_string(),
        files: test_files.clone(),
        directories: Vec::new(),
    };
    let file_walker = FileWalker::new(root);
    let entries = file_walker.walk();
    assert_eq!(entries.len(), 1);
    assert_eq!(
        entries[0].directories.len(),
        0,
        "Expected 0 directories. Got [{}]",
        entries[0].directories.join(", ")
    );
    assert_eq!(entries[0].path, vec!["root".to_string()]);
    assert_eq!(entries[0].files, test_files);
}

#[test]
fn walk_test_files_with_trait_implementation() {
    let test_files = names(&["first", "second"]);
    let root = FsNode {
        name: "root".to_string(),
        files: test_files.clone(),
        directories: Vec::new(),
    };
    let file_walker = FileWalker::new(root);
    let mut test_walker = TestWalker::new();

    file_walker.walk_with(&mut test_walker);

    assert!(test_walker.walk_executed);
    assert_eq!(test_walker.seen_paths, vec![names(&["root"])]);
    assert_eq!(test_walker.seen_directories, Vec::<String>::new());
    assert_eq!(test_walker.seen_files, test_files);
}

#[test]
fn walk_test_sub_directory_files_with_trait_implementation() {
    const SUBDIR_01: &str = "subdir01";

    let test_files = names(&["first", "second"]);
    let sub_test_files = names(&["first_sub", "second_sub"]);
    let root = FsNode {
        name: "root".to_string(),
        files: test_files.clone(),
        directories: vec![leaf(SUBDIR_01, &["first_sub", "second_sub"])],
    };
    let file_walker = FileWalker::new(root);
    let mut test_walker = TestWalker::new();

    file_walker.walk_with(&mut test_walker);

    assert!(test_walker.walk_executed);
    assert_eq!(
        test_walker.seen_paths,
        vec![names(&["root"]), names(&["root", SUBDIR_01])]
    );
    assert_eq!(test_walker.seen_directories, vec![SUBDIR_01.to_string()]);
    let mut expected_files = test_files.clone();
    expected_files.extend(sub_test_files.iter().cloned());
    assert_eq!(test_walker.seen_files, expected_files);
}

#[test]
fn walk_is_preorder_and_visits_each_directory_once() {
    let root = FsNode {
        name: "top".to_string(),
        files: names(&["a"]),
        directories: vec![
            FsNode {
                name: "one".to_string(),
                files: names(&["b"]),
                directories: vec![leaf("inner", &["c"])],
            },
            leaf("two", &["d"]),
        ],
    };
    let entries = FileWalker::new(root).walk();
    let paths: Vec<Vec<String>> = entries.iter().map(|e| e.path.clone()).collect();
    assert_eq!(
        paths,
        vec![
            names(&["top"]),
            names(&["top", "one"]),
            names(&["top", "one", "inner"]),
            names(&["top", "two"]),
        ]
    );
}

#[test]
fn sibling_directories_are_planned_independently() {
    let root = FsNode {
        name: "top".to_string(),
        files: Vec::new(),
        directories: vec![
            leaf("left", &["1_a.txt", "1_b.txt"]),
            leaf("right", &["1_c.txt", "1_d.txt"]),
        ],
    };
    let walker = FileWalker::new(root);
    let outcome = plan_tree(&walker, 1, &None);
    assert_eq!(outcome.len(), 3);
    assert_eq!(outcome[0].path, names(&["top"]));
    assert!(outcome[0].plan.as_ref().expect("top plan").is_empty());
    let left = outcome[1].plan.as_ref().expect("left plan");
    assert_eq!(left.len(), 1);
    assert_eq!(left[0].from, "1_b.txt");
    assert_eq!(left[0].to, "2_b.txt");
    // the right directory starts its own search at the floor, untouched by
    // the left one's moves
    let right = outcome[2].plan.as_ref().expect("right plan");
    assert_eq!(right.len(), 1);
    assert_eq!(right[0].from, "1_d.txt");
    assert_eq!(right[0].to, "2_d.txt");
}

#[test]
fn keep_file_applies_in_every_directory() {
    let root = FsNode {
        name: "top".to_string(),
        files: names(&["3_x.txt", "3_y.txt"]),
        directories: vec![leaf("sub", &["3_p.txt", "3_y.txt"])],
    };
    let walker = FileWalker::new(root);
    let keep = Some("3_y.txt".to_string());
    let outcome = plan_tree(&walker, 1, &keep);
    assert_eq!(outcome.len(), 2);
    let top = outcome[0].plan.as_ref().expect("top plan");
    assert_eq!(top.len(), 1);
    assert_eq!(top[0].from, "3_x.txt");
    assert_eq!(top[0].to, "1_x.txt");
    let sub = outcome[1].plan.as_ref().expect("sub plan");
    assert_eq!(sub.len(), 1);
    assert_eq!(sub[0].from, "3_p.txt");
    assert_eq!(sub[0].to, "1_p.txt");
}
