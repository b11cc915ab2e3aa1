use file_sharing::tree::{copy_trees, same_trees, FileTree};

fn file(name: &str, hash: &str) -> FileTree {
    FileTree::File((name.to_string(), hash.to_string()))
}

fn folder(name: &str, children: Vec<FileTree>) -> FileTree {
    FileTree::Folder((name.to_string(), children))
}

fn sample() -> FileTree {
    folder(
        "music",
        vec![
            file("a.mp3", "h1"),
            folder("live", vec![file("b.mp3", "h2"), FileTree::Empty]),
            folder("none", vec![]),
        ],
    )
}

#[test]
fn tree_is_the_same_as_its_copy() {
    let tree = sample();
    let copy = tree.clone();
    assert!(tree.same(&copy));
    assert!(copy.same(&tree));
}

#[test]
fn trees_differ_in_names_hashes_and_shape() {
    assert!(!file("a", "h").same(&file("b", "h")));
    assert!(!file("a", "h").same(&file("a", "g")));
    assert!(!file("a", "h").same(&FileTree::Empty));
    assert!(!folder("a", vec![]).same(&folder("b", vec![])));
    assert!(!folder("a", vec![]).same(&folder("a", vec![FileTree::Empty])));
    assert!(!folder("a", vec![file("x", "h")]).same(&folder("a", vec![file("x", "g")])));
    assert!(FileTree::Empty.same(&FileTree::Empty));
}

#[test]
fn lists_of_trees_are_compared_in_order() {
    let left = vec![file("a", "h"), sample()];
    let right = vec![sample(), file("a", "h")];
    assert!(!same_trees(&left, &right));
    assert!(!same_trees(&left, &vec![]));
    assert!(same_trees(&left, &copy_trees(&left)));
    assert!(same_trees(&vec![], &vec![]));
}
