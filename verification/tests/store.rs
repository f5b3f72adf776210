use authorship::blame::{Blame, BlameId, BlameTree};
use authorship::commit::Commit;
use authorship::store::{NotFound, Store};

fn id(commit: &str, blob: &str, path: &str) -> BlameId {
    BlameId { commit: commit.to_string(), blob: blob.to_string(), path: path.to_string() }
}

fn commit(hash: &str, author: &str) -> Commit {
    Commit {
        hash: hash.to_string(),
        parents: vec![],
        author: author.to_string(),
        author_mail: format!("{author}@x"),
        author_time: 1,
        committer: author.to_string(),
        committer_mail: format!("{author}@x"),
        committer_time: 2,
        subject: "s".to_string(),
    }
}

#[test]
fn an_empty_store_finds_nothing() {
    let store = Store::new();
    assert!(!store.blame_exists(&id("c", "b", "p")));
    assert_eq!(store.load_blame(&id("c", "b", "p")), Err(NotFound));
    assert!(!store.commit_exists(&"c".to_string()));
    assert_eq!(store.load_commit(&"c".to_string()), Err(NotFound));
    assert!(!store.blametree_exists(&"c".to_string()));
    assert_eq!(store.load_blametree(&"c".to_string()), Err(NotFound));
}

#[test]
fn writing_a_record_twice_changes_nothing() {
    let mut store = Store::new();
    let record = Blame { id: id("c", "b", "p"), lines_by_commit: vec![("c".to_string(), 10)] };
    store.save_blame(record.clone());
    let first = store.load_blame(&id("c", "b", "p")).unwrap().clone();
    store.save_blame(record.clone());
    let second = store.load_blame(&id("c", "b", "p")).unwrap().clone();
    assert_eq!(first, record);
    assert_eq!(second, record);
}

#[test]
fn a_record_never_changes_once_written() {
    let mut store = Store::new();
    let record = Blame { id: id("c", "b", "p"), lines_by_commit: vec![("c".to_string(), 10)] };
    let other = Blame { id: id("c", "b", "p"), lines_by_commit: vec![("d".to_string(), 99)] };
    store.save_blame(record.clone());
    store.save_blame(other);
    assert_eq!(store.load_blame(&id("c", "b", "p")).unwrap(), &record);
}

#[test]
fn records_are_kept_apart_by_all_three_fields() {
    let mut store = Store::new();
    store.save_blame(Blame { id: id("c", "b", "p"), lines_by_commit: vec![("c".to_string(), 1)] });
    store.save_blame(Blame { id: id("c", "b", "q"), lines_by_commit: vec![("c".to_string(), 2)] });
    assert_eq!(store.load_blame(&id("c", "b", "p")).unwrap().lines_by_commit[0].1, 1);
    assert_eq!(store.load_blame(&id("c", "b", "q")).unwrap().lines_by_commit[0].1, 2);
    assert!(!store.blame_exists(&id("x", "b", "p")));
    assert!(!store.blame_exists(&id("c", "x", "p")));
}

#[test]
fn commits_and_trees_are_kept_by_hash() {
    let mut store = Store::new();
    store.save_commit(commit("A", "alice"));
    store.save_commit(commit("B", "bob"));
    store.save_commit(commit("A", "mallory"));
    assert!(store.commit_exists(&"A".to_string()));
    assert_eq!(store.load_commit(&"A".to_string()).unwrap().author, "alice");
    assert_eq!(store.load_commit(&"B".to_string()).unwrap().author, "bob");
    store.save_blametree(BlameTree { commit: "A".to_string(), blames: vec![id("A", "b", "f")] });
    store.save_blametree(BlameTree { commit: "A".to_string(), blames: vec![] });
    assert!(store.blametree_exists(&"A".to_string()));
    assert_eq!(store.load_blametree(&"A".to_string()).unwrap().blames, vec![id("A", "b", "f")]);
    assert!(!store.blametree_exists(&"B".to_string()));
}
