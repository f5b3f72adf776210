use authorship::blame::{clone_ids, clone_lines, Blame, BlameId, BlameTree};

fn id(commit: &str, blob: &str, path: &str) -> BlameId {
    BlameId { commit: commit.to_string(), blob: blob.to_string(), path: path.to_string() }
}

#[test]
fn the_digest_is_the_sha256_of_the_three_fields_in_order() {
    assert_eq!(
        id("a", "b", "c").sha256(),
        "ba7816bf8f01cfea414140de5dae2223b00361a396177a9cb410ff61f20015ad"
    );
}

#[test]
fn the_digest_of_nothing_is_the_digest_of_the_empty_text() {
    assert_eq!(
        id("", "", "").sha256(),
        "e3b0c44298fc1c149afbf4c8996fb92427ae41e4649b934ca495991b7852b855"
    );
}

#[test]
fn the_digest_differs_from_its_input_and_between_ids() {
    let one = id("1111", "2222", "src/lib.rs");
    let other = id("1111", "2222", "src/main.rs");
    assert_eq!(one.sha256().len(), 64);
    assert!(one.sha256().chars().all(|c| matches!(c, '0'..='9' | 'a'..='f')));
    assert_ne!(one.sha256(), "11112222src/lib.rs");
    assert_ne!(one.sha256(), other.sha256());
    assert_eq!(one.sha256(), one.clone().sha256());
}

#[test]
fn ids_are_the_same_iff_all_fields_agree() {
    let one = id("c", "b", "p");
    assert!(one.same(&id("c", "b", "p")));
    assert!(!one.same(&id("x", "b", "p")));
    assert!(!one.same(&id("c", "x", "p")));
    assert!(!one.same(&id("c", "b", "x")));
    assert_eq!(one.clone(), one);
}

#[test]
fn records_and_trees_are_copied_whole() {
    let blame = Blame {
        id: id("c", "b", "p"),
        lines_by_commit: vec![("c".to_string(), 3), ("d".to_string(), 4)],
    };
    assert_eq!(blame.clone(), blame);
    assert_eq!(clone_lines(&blame.lines_by_commit), blame.lines_by_commit);
    let tree = BlameTree { commit: "c".to_string(), blames: vec![id("c", "b", "p"), id("d", "e", "q")] };
    assert_eq!(tree.clone(), tree);
    assert_eq!(clone_ids(&tree.blames), tree.blames);
}
