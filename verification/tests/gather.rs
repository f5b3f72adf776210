use authorship::blame::{Blame, BlameId, BlameTree};
use authorship::commit::Commit;
use authorship::gather::{
    add_blametree, claim_blame, compute_blametree, find_blame_commit, oldest_without_tree,
    pending_blames, InFlight,
};
use authorship::store::Store;
use ignore::gitignore::{Gitignore, GitignoreBuilder};

fn id(commit: &str, blob: &str, path: &str) -> BlameId {
    BlameId { commit: commit.to_string(), blob: blob.to_string(), path: path.to_string() }
}

fn tree(commit: &str, blames: Vec<BlameId>) -> BlameTree {
    BlameTree { commit: commit.to_string(), blames }
}

fn key(path: &str, blob: &str) -> (String, String) {
    (path.to_string(), blob.to_string())
}

fn commit(hash: &str, parents: &[&str]) -> Commit {
    Commit {
        hash: hash.to_string(),
        parents: parents.iter().map(|p| p.to_string()).collect(),
        author: "Alice".to_string(),
        author_mail: "alice@x".to_string(),
        author_time: 0,
        committer: "Alice".to_string(),
        committer_mail: "alice@x".to_string(),
        committer_time: 0,
        subject: "subject".to_string(),
    }
}

fn ignoring(lines: &[&str]) -> Gitignore {
    let mut builder = GitignoreBuilder::new("");
    for line in lines {
        builder.add_line(None, line).unwrap();
    }
    builder.build().unwrap()
}

#[test]
fn without_parents_nothing_is_inherited() {
    assert_eq!(find_blame_commit(&vec![], &key("f", "b1")), None);
}

#[test]
fn an_unchanged_file_inherits_from_its_single_parent() {
    let parents = vec![tree("A", vec![id("A", "b1", "f")])];
    assert_eq!(find_blame_commit(&parents, &key("f", "b1")), Some("A".to_string()));
}

#[test]
fn a_changed_blob_is_not_inherited() {
    let parents = vec![tree("A", vec![id("A", "b1", "f")])];
    assert_eq!(find_blame_commit(&parents, &key("f", "b2")), None);
    assert_eq!(find_blame_commit(&parents, &key("g", "b1")), None);
}

#[test]
fn parents_that_agree_are_inherited_from() {
    let parents =
        vec![tree("B", vec![id("A", "b1", "f")]), tree("C", vec![id("A", "b1", "f"), id("C", "b9", "g")])];
    assert_eq!(find_blame_commit(&parents, &key("f", "b1")), Some("A".to_string()));
}

#[test]
fn parents_that_disagree_force_a_fresh_attribution() {
    let parents = vec![tree("B", vec![id("A", "b1", "f")]), tree("C", vec![id("C", "b1", "f")])];
    assert_eq!(find_blame_commit(&parents, &key("f", "b1")), None);
}

#[test]
fn a_parent_without_the_file_forces_a_fresh_attribution() {
    let parents = vec![tree("B", vec![id("A", "b1", "f")]), tree("C", vec![])];
    assert_eq!(find_blame_commit(&parents, &key("f", "b1")), None);
    let parents = vec![tree("C", vec![]), tree("B", vec![id("A", "b1", "f")])];
    assert_eq!(find_blame_commit(&parents, &key("f", "b1")), None);
}

#[test]
fn the_last_entry_of_a_parent_for_a_pair_counts() {
    let parents = vec![tree("B", vec![id("A", "b1", "f"), id("Z", "b1", "f")])];
    assert_eq!(find_blame_commit(&parents, &key("f", "b1")), Some("Z".to_string()));
}

#[test]
fn a_tree_holds_one_entry_per_file_in_order() {
    let parents = vec![tree("A", vec![id("A", "b1", "f"), id("A", "b2", "g")])];
    let built = compute_blametree(
        &"B".to_string(),
        &parents,
        vec![key("f", "b1"), key("g", "b3"), key("h", "b4")],
    );
    assert_eq!(built, tree("B", vec![id("A", "b1", "f"), id("B", "b3", "g"), id("B", "b4", "h")]));
}

#[test]
fn a_root_commit_attributes_every_file_to_itself() {
    let built = compute_blametree(&"A".to_string(), &vec![], vec![key("f", "b1")]);
    assert_eq!(built, tree("A", vec![id("A", "b1", "f")]));
    let empty = compute_blametree(&"A".to_string(), &vec![], vec![]);
    assert_eq!(empty, tree("A", vec![]));
}

#[test]
fn trees_are_added_oldest_first_and_only_once() {
    let mut store = Store::new();
    let log = vec![commit("B", &["A"]), commit("A", &[])];
    assert_eq!(oldest_without_tree(&store, &log, 1), Some(1));
    assert_eq!(add_blametree(&mut store, &log[0], vec![key("f", "b1")]).is_err(), true);
    assert!(!store.blametree_exists(&"B".to_string()));
    assert!(add_blametree(&mut store, &log[1], vec![key("f", "b1")]).is_ok());
    assert_eq!(oldest_without_tree(&store, &log, 1), Some(0));
    assert!(add_blametree(&mut store, &log[0], vec![key("f", "b1"), key("g", "b2")]).is_ok());
    assert_eq!(oldest_without_tree(&store, &log, 1), None);
    let b = store.load_blametree(&"B".to_string()).unwrap();
    assert_eq!(b.blames, vec![id("A", "b1", "f"), id("B", "b2", "g")]);
    assert!(add_blametree(&mut store, &log[0], vec![]).is_ok());
    assert_eq!(store.load_blametree(&"B".to_string()).unwrap().blames.len(), 2);
}

#[test]
fn an_unchanged_file_shares_one_record_between_parent_and_child() {
    let mut store = Store::new();
    let ignore = ignoring(&[]);
    let a = commit("A", &[]);
    let b = commit("B", &["A"]);
    add_blametree(&mut store, &a, vec![key("f", "b1")]).unwrap();
    add_blametree(&mut store, &b, vec![key("f", "b1")]).unwrap();
    let tree_a = store.load_blametree(&"A".to_string()).unwrap().clone();
    let tree_b = store.load_blametree(&"B".to_string()).unwrap().clone();
    assert_eq!(tree_b.blames, vec![id("A", "b1", "f")]);

    let mut claimed = InFlight::new();
    let due_b = pending_blames(&store, &ignore, &mut claimed, &tree_b);
    assert_eq!(due_b, vec![]);
    let due_a = pending_blames(&store, &ignore, &mut claimed, &tree_a);
    assert_eq!(due_a, vec![id("A", "b1", "f")]);
    for due in due_a {
        store.save_blame(Blame { id: due, lines_by_commit: vec![("A".to_string(), 10)] });
    }
    assert!(store.blame_exists(&id("A", "b1", "f")));
    assert!(!store.blame_exists(&id("B", "b1", "f")));
    let again = pending_blames(&store, &ignore, &mut InFlight::new(), &tree_a);
    assert_eq!(again, vec![]);
}

#[test]
fn a_claimed_or_ignored_file_is_not_pending() {
    let store = Store::new();
    let ignore = ignoring(&["*.lock", "vendor/"]);
    let t = tree(
        "C",
        vec![
            id("C", "b1", "src/a.rs"),
            id("C", "b2", "Cargo.lock"),
            id("C", "b3", "vendor/x/y.rs"),
            id("A", "b4", "src/old.rs"),
            id("C", "b1", "src/a.rs"),
            id("C", "b5", "src/b.rs"),
        ],
    );
    let mut claimed = InFlight::new();
    assert!(claimed.claim(&id("C", "b5", "src/b.rs")));
    assert!(!claimed.claim(&id("C", "b5", "src/b.rs")));
    let due = pending_blames(&store, &ignore, &mut claimed, &t);
    assert_eq!(due, vec![id("C", "b1", "src/a.rs")]);
    assert!(claimed.contains(&id("C", "b1", "src/a.rs")));
    assert!(!claimed.contains(&id("C", "b2", "Cargo.lock")));
    assert!(!claimed.contains(&id("A", "b4", "src/old.rs")));
}

#[test]
fn a_file_is_claimed_once_and_only_by_its_own_commit() {
    let ignore = ignoring(&["*.lock"]);
    let own = "C".to_string();
    let mut claimed = InFlight::new();
    assert!(claim_blame(&ignore, &mut claimed, &own, &id("C", "b1", "src/a.rs")));
    assert!(!claim_blame(&ignore, &mut claimed, &own, &id("C", "b1", "src/a.rs")));
    assert!(claimed.contains(&id("C", "b1", "src/a.rs")));
    assert!(!claim_blame(&ignore, &mut claimed, &own, &id("A", "b2", "src/b.rs")));
    assert!(!claimed.contains(&id("A", "b2", "src/b.rs")));
    assert!(!claim_blame(&ignore, &mut claimed, &own, &id("C", "b3", "Cargo.lock")));
    assert!(!claimed.contains(&id("C", "b3", "Cargo.lock")));
    assert!(claim_blame(&ignore, &mut claimed, &"A".to_string(), &id("A", "b2", "src/b.rs")));
}
