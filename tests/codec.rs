use zk_loader::codec::{ensure_ends_with_slash, tar_path_to_znode_path, znode_path_to_tar_path};

#[test]
pub fn tar_path_to_znode_path_test() {
    let zk_path = tar_path_to_znode_path("____data");
    assert_eq!(zk_path, "/");

    let zk_path = tar_path_to_znode_path("banana/____data");
    assert_eq!(zk_path, "/banana");
}

#[test]
pub fn znode_path_to_tar_path_test() {
    let tar_path = znode_path_to_tar_path("/");
    assert_eq!(tar_path, "____data");

    let tar_path = znode_path_to_tar_path("/banana");
    assert_eq!(tar_path, "banana/____data");
}

#[test]
fn encode_nested_path() {
    assert_eq!(znode_path_to_tar_path("/a/b"), "a/b/____data");
}

#[test]
fn round_trip_on_sample_paths() {
    for p in ["/", "/banana", "/a/b", "/x/y/z", "/a_b/c-d", "/___/data"] {
        assert_eq!(tar_path_to_znode_path(&znode_path_to_tar_path(p)), p);
    }
}

#[test]
fn decode_without_marker_prepends_slash() {
    assert_eq!(tar_path_to_znode_path("a/b"), "/a/b");
    assert_eq!(tar_path_to_znode_path(""), "/");
    assert_eq!(tar_path_to_znode_path("/a/"), "/a");
}

#[test]
fn decode_removes_every_marker() {
    assert_eq!(tar_path_to_znode_path("a____data/b/____data"), "/a/b");
}

#[test]
fn slash_appended_once() {
    assert_eq!(ensure_ends_with_slash("/a"), "/a/");
    assert_eq!(ensure_ends_with_slash("/"), "/");
    assert_eq!(ensure_ends_with_slash(""), "/");
}
