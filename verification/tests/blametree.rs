use authorship::blame::BlameId;
use authorship::blametree::{BlameSubtree, BlameTree};

fn id(commit: &str, blob: &str, path: &str) -> BlameId {
    BlameId { commit: commit.to_string(), blob: blob.to_string(), path: path.to_string() }
}

fn flat(node: BlameSubtree) -> Vec<BlameId> {
    let mut blames = vec![];
    node.into_blames("", &mut blames);
    blames
}

#[test]
fn an_empty_node_holds_no_file() {
    assert_eq!(flat(BlameSubtree::new()), vec![]);
}

#[test]
fn files_come_back_under_their_paths() {
    let mut root = BlameSubtree::new();
    root.insert("src/lib.rs", "c1".to_string(), "b1".to_string());
    root.insert("README", "c2".to_string(), "b2".to_string());
    root.insert("src/data/blame.rs", "c3".to_string(), "b3".to_string());
    root.insert("src/main.rs", "c4".to_string(), "b4".to_string());
    assert_eq!(
        flat(root),
        vec![
            id("c1", "b1", "src/lib.rs"),
            id("c3", "b3", "src/data/blame.rs"),
            id("c4", "b4", "src/main.rs"),
            id("c2", "b2", "README"),
        ]
    );
}

#[test]
fn a_file_put_in_twice_is_replaced() {
    let mut root = BlameSubtree::new();
    root.insert("a/b", "c1".to_string(), "b1".to_string());
    root.insert("a/c", "c2".to_string(), "b2".to_string());
    root.insert("a/b", "c3".to_string(), "b3".to_string());
    assert_eq!(flat(root), vec![id("c3", "b3", "a/b"), id("c2", "b2", "a/c")]);
}

#[test]
fn a_file_and_a_directory_may_share_a_name() {
    let mut root = BlameSubtree::new();
    root.insert("a/b", "c1".to_string(), "b1".to_string());
    root.insert("a", "c2".to_string(), "b2".to_string());
    assert_eq!(flat(root), vec![id("c2", "b2", "a"), id("c1", "b1", "a/b")]);
}

#[test]
fn a_node_below_a_directory_gets_the_directory_in_front() {
    let mut node = BlameSubtree::new();
    node.insert("x/y", "c".to_string(), "b".to_string());
    let mut blames = vec![id("c0", "b0", "first")];
    node.into_blames("dir", &mut blames);
    assert_eq!(blames, vec![id("c0", "b0", "first"), id("c", "b", "dir/x/y")]);
}

#[test]
fn empty_components_are_kept_as_they_come_out() {
    let mut root = BlameSubtree::new();
    root.insert("a/", "c1".to_string(), "b1".to_string());
    assert_eq!(flat(root), vec![id("c1", "b1", "a/")]);
    let mut root = BlameSubtree::new();
    root.insert("", "c1".to_string(), "b1".to_string());
    assert_eq!(flat(root), vec![id("c1", "b1", "")]);
    let mut root = BlameSubtree::new();
    root.insert("/a", "c1".to_string(), "b1".to_string());
    assert_eq!(flat(root), vec![id("c1", "b1", "a")]);
}

#[test]
fn a_tree_is_taken_apart_into_what_it_was_built_from() {
    let blames = vec![id("c1", "b1", "src/a.rs"), id("c2", "b2", "src/b.rs"), id("c1", "b3", "doc/x.md")];
    let tree = BlameTree::new("head".to_string(), blames.clone());
    assert_eq!(tree.commit, "head");
    let (commit, back) = tree.destruct();
    assert_eq!(commit, "head");
    assert_eq!(back, blames);
}

#[test]
fn the_tree_of_an_empty_commit_is_empty() {
    let (commit, back) = BlameTree::new("head".to_string(), vec![]).destruct();
    assert_eq!(commit, "head");
    assert_eq!(back, vec![]);
}

#[test]
fn the_last_of_two_entries_for_a_path_stays() {
    let tree = BlameTree::new("h".to_string(), vec![id("c1", "b1", "f"), id("c2", "b2", "f")]);
    assert_eq!(tree.destruct().1, vec![id("c2", "b2", "f")]);
}

#[test]
fn a_new_node_has_no_file_and_no_children() {
    let node = BlameSubtree::new();
    let (file, children) = node.parts();
    assert!(file.is_none());
    assert_eq!(children.len(), 0);
}

#[test]
fn a_single_file_deep_in_the_tree_comes_back_alone() {
    let tree = BlameTree::new("c1".to_string(), vec![id("c0", "b", "src/a/b.rs")]);
    assert_eq!(tree.destruct(), ("c1".to_string(), vec![id("c0", "b", "src/a/b.rs")]));
}

#[test]
fn what_is_built_and_taken_apart_is_the_same_files_in_some_order() {
    let blames = vec![
        id("c1", "b1", "z/last.rs"),
        id("c2", "b2", "a.rs"),
        id("c3", "b3", "z/first.rs"),
        id("c4", "b4", "m/n/o.rs"),
        id("c5", "b5", "m/p.rs"),
        id("c6", "b6", "z"),
    ];
    let (_, back) = BlameTree::new("h".to_string(), blames.clone()).destruct();
    assert_eq!(back.len(), blames.len());
    for blame in &blames {
        assert_eq!(back.iter().filter(|b| *b == blame).count(), 1);
    }
}
