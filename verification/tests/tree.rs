use passero::tree::{tree_from_paths, PasswordEntry};

fn names(level: &[PasswordEntry]) -> Vec<(String, bool)> {
    level.iter().map(|e| (e.name.clone(), e.is_dir)).collect()
}

#[test]
fn tree_puts_directories_first_then_names_in_order() {
    let paths: Vec<String> = vec!["zeta".into(), "email/fastmail".into(), "alpha".into(), "email/gmail".into(), "bank/x/y".into()];
    let roots = tree_from_paths(&paths);
    assert_eq!(
        names(&roots),
        vec![("bank".to_string(), true), ("email".to_string(), true), ("alpha".to_string(), false), ("zeta".to_string(), false)]
    );
    let email = &roots[1];
    assert_eq!(email.path, "email");
    assert_eq!(names(&email.children), vec![("fastmail".to_string(), false), ("gmail".to_string(), false)]);
    assert_eq!(email.children[0].path, "email/fastmail");
    let x = &roots[0].children[0];
    assert_eq!(x.path, "bank/x");
    assert!(x.is_dir);
    assert_eq!(x.children[0].path, "bank/x/y");
    assert!(x.children[0].children.is_empty());
}

#[test]
fn tree_keeps_a_file_and_a_directory_of_the_same_name_apart() {
    let paths: Vec<String> = vec!["a".into(), "a/b".into(), "a".into()];
    let roots = tree_from_paths(&paths);
    assert_eq!(names(&roots), vec![("a".to_string(), true), ("a".to_string(), false)]);
    assert_eq!(roots[0].children.len(), 1);
}

#[test]
fn tree_of_no_paths_is_empty() {
    let roots = tree_from_paths(&Vec::new());
    assert!(roots.is_empty());
}

#[test]
fn tree_orders_by_code_point() {
    let paths: Vec<String> = vec!["b".into(), "B".into(), "a".into(), "ab".into()];
    let roots = tree_from_paths(&paths);
    assert_eq!(
        names(&roots),
        vec![("B".to_string(), false), ("a".to_string(), false), ("ab".to_string(), false), ("b".to_string(), false)]
    );
}
