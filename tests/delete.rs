use zk_loader::delete::{DeleteAction, DeleteWalk};

fn strings(v: &[&str]) -> Vec<String> {
    v.iter().map(|s| s.to_string()).collect()
}

fn children_of(path: &str) -> Vec<String> {
    match path {
        "/d" => strings(&["a", "b"]),
        "/d/a" => strings(&["x"]),
        _ => Vec::new(),
    }
}

fn run(roots: &[&str], excluded: &[&str]) -> (Vec<String>, Vec<String>) {
    let mut walk = DeleteWalk::new(&strings(roots), &strings(excluded));
    let mut listed = Vec::new();
    let mut deleted = Vec::new();
    loop {
        match walk.next_action() {
            DeleteAction::List(p) => {
                walk.push_children(&p, &children_of(&p));
                listed.push(p);
            }
            DeleteAction::Delete(p) => deleted.push(p),
            DeleteAction::Done => break,
        }
    }
    (listed, deleted)
}

#[test]
fn delete_children_before_parent() {
    let (listed, deleted) = run(&["/d"], &[]);
    assert_eq!(listed, strings(&["/d", "/d/a", "/d/a/x", "/d/b"]));
    assert_eq!(deleted, strings(&["/d/a/x", "/d/a", "/d/b", "/d"]));
}

#[test]
fn delete_leaves_excluded_subtree() {
    let (listed, deleted) = run(&["/d"], &["/d/a"]);
    assert_eq!(listed, strings(&["/d", "/d/b"]));
    assert_eq!(deleted, strings(&["/d/b", "/d"]));
}

#[test]
fn delete_excluded_root_does_nothing() {
    let (listed, deleted) = run(&["/d"], &["/d"]);
    assert!(listed.is_empty());
    assert!(deleted.is_empty());
}
