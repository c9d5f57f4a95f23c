use std::collections::BTreeMap;

use zk_loader::dump::{archive_entry, dump, DumpError, ZkLoader};
use zk_loader::restore::{create_znodes_for_path, plan_restore};

fn strings(v: &[&str]) -> Vec<String> {
    v.iter().map(|s| s.to_string()).collect()
}

/// An in-memory tree: path -> (payload, transient), children in insertion order.
struct Tree {
    nodes: Vec<(String, Vec<u8>, bool)>,
}

impl Tree {
    fn new() -> Tree {
        Tree { nodes: Vec::new() }
    }

    fn add(&mut self, path: &str, data: &[u8], ephemeral: bool) {
        self.nodes.push((path.to_string(), data.to_vec(), ephemeral));
    }

    fn get(&self, path: &str) -> Option<(Vec<u8>, bool)> {
        self.nodes.iter().find(|n| n.0 == path).map(|n| (n.1.clone(), n.2))
    }

    fn children(&self, path: &str) -> Vec<String> {
        let prefix = if path.ends_with('/') { path.to_string() } else { format!("{}/", path) };
        self.nodes
            .iter()
            .filter_map(|n| n.0.strip_prefix(prefix.as_str()))
            .filter(|rest| !rest.is_empty() && !rest.contains('/'))
            .map(|rest| rest.to_string())
            .collect()
    }
}

fn run_dump(tree: &Tree, roots: &[&str], excluded: &[&str]) -> Result<Vec<(String, Vec<u8>)>, DumpError> {
    let loader = ZkLoader::new(strings(roots), "dump.tar.gz", strings(excluded), true).unwrap();
    let present: Vec<bool> = loader.znode_paths.iter().map(|p| tree.get(p).is_some()).collect();
    let mut walk = dump(&loader, &present)?;
    let mut out = Vec::new();
    while let Some(path) = walk.next_znode() {
        let (data, ephemeral) = tree.get(&path).unwrap();
        if let Some(entry) = archive_entry(&path, data, ephemeral) {
            out.push((entry.name, entry.payload));
            walk.push_children(&path, &tree.children(&path));
        }
    }
    Ok(out)
}

fn run_restore(
    store: &mut BTreeMap<String, Vec<u8>>,
    entries: &[(String, Vec<u8>)],
    roots: &[&str],
    excluded: &[&str],
) {
    let roots = strings(roots);
    let excluded = strings(excluded);
    for (name, payload) in entries {
        if let Some(plan) = plan_restore(name, &roots, &excluded) {
            for c in plan.creates {
                store.entry(c).or_insert_with(Vec::new);
            }
            store.insert(plan.target, payload.clone());
        }
    }
}

fn scenario_tree() -> Tree {
    let mut t = Tree::new();
    t.add("/r", b"X", false);
    t.add("/r/a", b"Y", false);
    t.add("/r/b", b"", true);
    t
}

#[test]
fn scenario_dump_then_restore() {
    let t = scenario_tree();
    let entries = run_dump(&t, &["/r"], &[]).unwrap();
    assert_eq!(
        entries,
        vec![("r/____data".to_string(), b"X".to_vec()), ("r/a/____data".to_string(), b"Y".to_vec())]
    );
    let mut store = BTreeMap::new();
    run_restore(&mut store, &entries, &["/r"], &[]);
    assert_eq!(store.get("/r"), Some(&b"X".to_vec()));
    assert_eq!(store.get("/r/a"), Some(&b"Y".to_vec()));
    assert!(store.get("/r/b").is_none());
    assert_eq!(store.len(), 2);
}

#[test]
fn dump_is_pre_order_in_listing_order() {
    let mut t = Tree::new();
    t.add("/", b"root", false);
    t.add("/b", b"1", false);
    t.add("/a", b"2", false);
    t.add("/b/c", b"3", false);
    let entries = run_dump(&t, &["/"], &[]).unwrap();
    let names: Vec<&str> = entries.iter().map(|e| e.0.as_str()).collect();
    assert_eq!(names, vec!["____data", "b/____data", "b/c/____data", "a/____data"]);
}

#[test]
fn transient_node_never_dumped_at_any_depth() {
    let mut t = Tree::new();
    t.add("/r", b"X", false);
    t.add("/r/a", b"Y", false);
    t.add("/r/a/deep", b"Z", true);
    t.add("/r/e", b"E", true);
    let entries = run_dump(&t, &["/r"], &[]).unwrap();
    assert_eq!(entries.len(), 2);
    assert!(entries.iter().all(|e| e.0 != "r/a/deep/____data" && e.0 != "r/e/____data"));
}

#[test]
fn excluded_node_pruned_with_subtree() {
    let mut t = Tree::new();
    t.add("/r", b"X", false);
    t.add("/r/x", b"1", false);
    t.add("/r/x/y", b"2", false);
    t.add("/r/xy", b"3", false);
    let entries = run_dump(&t, &["/r"], &["/r/x"]).unwrap();
    let names: Vec<&str> = entries.iter().map(|e| e.0.as_str()).collect();
    assert_eq!(names, vec!["r/____data", "r/xy/____data"]);
}

#[test]
fn missing_root_refuses_dump() {
    let t = scenario_tree();
    assert_eq!(run_dump(&t, &["/r", "/absent"], &[]), Err(DumpError::MissingRoot));
}

#[test]
fn several_roots_share_one_archive() {
    let mut t = Tree::new();
    t.add("/p", b"P", false);
    t.add("/q", b"Q", false);
    let entries = run_dump(&t, &["/p", "/q"], &[]).unwrap();
    let names: Vec<&str> = entries.iter().map(|e| e.0.as_str()).collect();
    assert_eq!(names, vec!["p/____data", "q/____data"]);
}

#[test]
fn round_trip_deep_chain_and_wide_fan_out() {
    let mut t = Tree::new();
    t.add("/c", b"0", false);
    t.add("/c/1", b"1", false);
    t.add("/c/1/2", b"2", false);
    t.add("/c/1/2/3", b"3", false);
    for i in 0..20 {
        t.add(&format!("/c/w{}", i), format!("v{}", i).as_bytes(), false);
    }
    let entries = run_dump(&t, &["/c"], &[]).unwrap();
    assert_eq!(entries.len(), 24);
    let mut store = BTreeMap::new();
    run_restore(&mut store, &entries, &["/c"], &[]);
    for (path, data, _) in &t.nodes {
        assert_eq!(store.get(path), Some(data));
    }
}

#[test]
fn restore_skips_entry_outside_roots() {
    let entries = vec![("other/____data".to_string(), b"O".to_vec())];
    let mut store = BTreeMap::new();
    run_restore(&mut store, &entries, &["/r"], &[]);
    assert!(store.is_empty());
    assert!(plan_restore("other/____data", &strings(&["/r"]), &strings(&[])).is_none());
}

#[test]
fn restore_excludes_by_raw_prefix() {
    let roots = strings(&["/"]);
    let excluded = strings(&["/foo"]);
    assert!(plan_restore("foobar/____data", &roots, &excluded).is_none());
    assert!(plan_restore("foo/a/____data", &roots, &excluded).is_none());
    assert!(plan_restore("fo/____data", &roots, &excluded).is_some());
}

#[test]
fn restore_tolerates_child_before_parent() {
    let entries = vec![
        ("r/a/b/____data".to_string(), b"B".to_vec()),
        ("r/____data".to_string(), b"R".to_vec()),
    ];
    let mut store = BTreeMap::new();
    run_restore(&mut store, &entries, &["/r"], &[]);
    assert_eq!(store.get("/r"), Some(&b"R".to_vec()));
    assert_eq!(store.get("/r/a"), Some(&Vec::new()));
    assert_eq!(store.get("/r/a/b"), Some(&b"B".to_vec()));
}

#[test]
fn plan_lists_ancestors_then_target() {
    let plan = plan_restore("r/a/b/____data", &strings(&["/r"]), &strings(&[])).unwrap();
    assert_eq!(plan.creates, strings(&["/r", "/r/a", "/r/a/b"]));
    assert_eq!(plan.target, "/r/a/b");
}

#[test]
fn creates_for_root_and_odd_paths() {
    assert_eq!(create_znodes_for_path("/"), strings(&["/"]));
    assert_eq!(create_znodes_for_path("/a"), strings(&["/a"]));
    assert_eq!(create_znodes_for_path("/a/"), strings(&["/a", "/a/"]));
}

#[test]
fn loader_refused_without_connection() {
    let r = ZkLoader::new(strings(&["/"]), "f", strings(&[]), false);
    assert_eq!(r.err(), Some("Connection failed: ".to_string()));
}

#[test]
fn all_roots_present_check() {
    let l = ZkLoader::new(strings(&["/a", "/b"]), "f", strings(&[]), true).unwrap();
    assert!(l.all_znodes_exist(&vec![true, true]));
    assert!(!l.all_znodes_exist(&vec![true, false]));
    assert_eq!(l.dump_file, "f");
}

#[test]
fn entry_for_transient_node_is_none() {
    assert!(archive_entry("/r", b"d".to_vec(), true).is_none());
    let e = archive_entry("/r", b"d".to_vec(), false).unwrap();
    assert_eq!(e.name, "r/____data");
    assert_eq!(e.payload, b"d".to_vec());
}

#[test]
pub fn test_dump_restore() {
    let root_znode = ("/test_ase2134234", b"123data!".to_vec());
    let excluded_znode = ("/test_ase2134234/2", b"123data!+2".to_vec());
    let child_znode = ("/test_ase2134234/1", b"123data!+1".to_vec());
    let ephemeral_znode = ("/test_ase2134234/ephemera-znode", b"data".to_vec());

    let mut t = Tree::new();
    t.add(root_znode.0, &root_znode.1, false);
    t.add(child_znode.0, &child_znode.1, false);
    t.add(excluded_znode.0, &excluded_znode.1, false);
    t.add(ephemeral_znode.0, &ephemeral_znode.1, true);

    let entries = run_dump(&t, &[root_znode.0], &[excluded_znode.0]).unwrap();
    let mut store = BTreeMap::new();
    run_restore(&mut store, &entries, &[root_znode.0], &[excluded_znode.0]);

    assert_eq!(store.get(child_znode.0), Some(&child_znode.1));
    assert_eq!(store.get(root_znode.0), Some(&root_znode.1));
    assert!(store.get(excluded_znode.0).is_none());
    assert!(store.get(ephemeral_znode.0).is_none());
}

#[test]
fn round_trip_single_node() {
    let mut t = Tree::new();
    t.add("/solo", b"", false);
    let entries = run_dump(&t, &["/solo"], &[]).unwrap();
    let mut store = BTreeMap::new();
    run_restore(&mut store, &entries, &["/solo"], &[]);
    assert_eq!(store.get("/solo"), Some(&Vec::new()));
    assert_eq!(store.len(), 1);
}
