use diff_tree::entry::{RawEntry, TreeEntry, is_tree, is_tree_mode, path_join};
use diff_tree::merge::{merge_entries, tree_entries};
use diff_tree::order::{PathOrder, bytes_cmp, entry_path_cmp};

fn raw(name: &[u8], mode: u32, oid: &[u8]) -> RawEntry {
    RawEntry { name: name.to_vec(), mode, oid: oid.to_vec() }
}

const FILE_MODE: u32 = 0o100644;
const DIR_MODE: u32 = 0o040000;

#[test]
fn merge_pairs_by_path_order() {
    let tree1 = vec![raw(b"a", FILE_MODE, b"1"), raw(b"c", FILE_MODE, b"2")];
    let tree2 = vec![raw(b"b", FILE_MODE, b"3"), raw(b"c", DIR_MODE, b"4")];
    let prefix: Vec<u8> = Vec::new();
    let pairs = merge_entries(&prefix, Some(&tree1), Some(&tree2));
    assert_eq!(pairs.len(), 3);

    let p0 = &pairs[0];
    assert_eq!(p0.left.as_ref().unwrap().path, b"a".to_vec());
    assert_eq!(p0.left.as_ref().unwrap().mode, FILE_MODE);
    assert!(p0.right.is_none());

    let p1 = &pairs[1];
    assert!(p1.left.is_none());
    assert_eq!(p1.right.as_ref().unwrap().path, b"b".to_vec());

    let p2 = &pairs[2];
    assert_eq!(p2.left.as_ref().unwrap().path, b"c".to_vec());
    assert_eq!(p2.left.as_ref().unwrap().mode, FILE_MODE);
    assert_eq!(p2.left.as_ref().unwrap().oid, b"2".to_vec());
    assert_eq!(p2.right.as_ref().unwrap().path, b"c".to_vec());
    assert_eq!(p2.right.as_ref().unwrap().mode, DIR_MODE);
    assert_eq!(p2.right.as_ref().unwrap().oid, b"4".to_vec());
}

#[test]
fn both_trees_absent_yield_empty_list() {
    let prefix = b"some/prefix".to_vec();
    let pairs = merge_entries(&prefix, None, None);
    assert_eq!(pairs.len(), 0);
}

#[test]
fn absent_left_tree_pairs_everything_with_absence() {
    let tree = vec![raw(b"a", FILE_MODE, b"1"), raw(b"b", DIR_MODE, b"2")];
    let prefix = b"dir".to_vec();
    let pairs = merge_entries(&prefix, None, Some(&tree));
    assert_eq!(pairs.len(), 2);
    assert!(pairs[0].left.is_none());
    assert_eq!(pairs[0].right.as_ref().unwrap().path, b"dir/a".to_vec());
    assert!(pairs[1].left.is_none());
    assert_eq!(pairs[1].right.as_ref().unwrap().path, b"dir/b".to_vec());
}

#[test]
fn absent_right_tree_pairs_everything_with_absence() {
    let tree = vec![raw(b"a", FILE_MODE, b"1")];
    let prefix: Vec<u8> = Vec::new();
    let pairs = merge_entries(&prefix, Some(&tree), None);
    assert_eq!(pairs.len(), 1);
    assert_eq!(pairs[0].left.as_ref().unwrap().path, b"a".to_vec());
    assert!(pairs[0].right.is_none());
}

#[test]
fn identical_entries_still_pair_positionally() {
    let tree1 = vec![raw(b"x", FILE_MODE, b"same")];
    let tree2 = vec![raw(b"x", FILE_MODE, b"same")];
    let prefix: Vec<u8> = Vec::new();
    let pairs = merge_entries(&prefix, Some(&tree1), Some(&tree2));
    assert_eq!(pairs.len(), 1);
    assert_eq!(pairs[0].left.as_ref().unwrap().oid, b"same".to_vec());
    assert_eq!(pairs[0].right.as_ref().unwrap().oid, b"same".to_vec());
}

#[test]
fn tree_entries_join_prefix_and_name() {
    let tree = vec![raw(b"c", FILE_MODE, b"1")];
    let prefix = b"a/b".to_vec();
    let entries = tree_entries(&prefix, Some(&tree));
    assert_eq!(entries.len(), 1);
    assert_eq!(entries[0].path, b"a/b/c".to_vec());
    assert_eq!(entries[0].mode, FILE_MODE);
    assert_eq!(entries[0].oid, b"1".to_vec());
}

#[test]
fn tree_entries_empty_prefix_has_no_separator() {
    let tree = vec![raw(b"c", FILE_MODE, b"1")];
    let prefix: Vec<u8> = Vec::new();
    let entries = tree_entries(&prefix, Some(&tree));
    assert_eq!(entries[0].path, b"c".to_vec());
}

#[test]
fn tree_entries_of_absent_tree_are_empty() {
    let prefix = b"p".to_vec();
    let entries = tree_entries(&prefix, None);
    assert_eq!(entries.len(), 0);
}

#[test]
fn path_join_concatenates_with_slash() {
    assert_eq!(path_join(&b"a/b".to_vec(), &b"c".to_vec()), b"a/b/c".to_vec());
    assert_eq!(path_join(&Vec::new(), &b"c".to_vec()), b"c".to_vec());
}

#[test]
fn byte_order_is_lexicographic() {
    assert_eq!(bytes_cmp(&b"a".to_vec(), &b"b".to_vec()), PathOrder::Less);
    assert_eq!(bytes_cmp(&b"b".to_vec(), &b"a".to_vec()), PathOrder::Greater);
    assert_eq!(bytes_cmp(&b"ab".to_vec(), &b"ab".to_vec()), PathOrder::Equal);
    assert_eq!(bytes_cmp(&b"a".to_vec(), &b"ab".to_vec()), PathOrder::Less);
    assert_eq!(bytes_cmp(&b"ab".to_vec(), &b"a".to_vec()), PathOrder::Greater);
    assert_eq!(bytes_cmp(&b"a.b".to_vec(), &b"a/b".to_vec()), PathOrder::Less);
    assert_eq!(bytes_cmp(&Vec::new(), &Vec::new()), PathOrder::Equal);
    assert_eq!(bytes_cmp(&Vec::new(), &b"a".to_vec()), PathOrder::Less);
}

#[test]
fn entries_compare_by_path() {
    let e1 = TreeEntry { path: b"a".to_vec(), mode: FILE_MODE, oid: b"1".to_vec() };
    let e2 = TreeEntry { path: b"b".to_vec(), mode: FILE_MODE, oid: b"2".to_vec() };
    assert_eq!(entry_path_cmp(&e1, &e2), PathOrder::Less);
    assert_eq!(entry_path_cmp(&e2, &e1), PathOrder::Greater);
    assert_eq!(entry_path_cmp(&e1, &e1), PathOrder::Equal);
}

#[test]
fn absent_entry_is_not_a_tree() {
    assert!(!is_tree(None));
}

#[test]
fn directory_mode_is_a_tree() {
    let e = TreeEntry { path: b"d".to_vec(), mode: DIR_MODE, oid: b"1".to_vec() };
    assert!(is_tree(Some(&e)));
    assert!(is_tree_mode(DIR_MODE));
    assert!(is_tree_mode(0o040755));
}

#[test]
fn other_modes_are_not_trees() {
    let e = TreeEntry { path: b"f".to_vec(), mode: FILE_MODE, oid: b"1".to_vec() };
    assert!(!is_tree(Some(&e)));
    assert!(!is_tree_mode(FILE_MODE));
    assert!(!is_tree_mode(0o120000));
    assert!(!is_tree_mode(0));
}
