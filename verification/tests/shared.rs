use std::path::PathBuf;

use file_sharing::shared::{
    folder_into_file_tree, Contents, Entry, FileList, Folder, FoundFile, ScanError,
};
use file_sharing::tree::{same_trees, FileTree};

const HASH_OF_A: &str = "4cc823fa118c5001e9032d933c6993b6c7da691924f41aee8011b54d8aa8b5bf";
const HASH_OF_B: &str = "6caa92724bb4c183997e401c3a089499c931c7acdb766909f9179633af510dcd";
const HASH_OF_C: &str = "6f44f93cd2f16111fce3a7ea6061f0fa7ccc1e6fac93449a8e0e3c9a5c74f5bc";

fn found(name: &str, text: &str, path: &str) -> Entry {
    Entry::File(FoundFile {
        name: Some(name.to_string()),
        text: text.to_string(),
        path: PathBuf::from(path),
    })
}

fn folder(name: &str, entries: Vec<Entry>) -> Folder {
    Folder { name: Some(name.to_string()), contents: Contents::Entries(entries) }
}

fn unreadable(name: Option<&str>) -> Folder {
    Folder {
        name: name.map(|name| name.to_string()),
        contents: Contents::Unreadable("denied".to_string()),
    }
}

fn share() -> Folder {
    folder(
        "share",
        vec![
            Entry::Folder(folder(
                "notes",
                vec![
                    found("a.txt", "/share/notes/a.txt", "/share/notes/a.txt"),
                    Entry::Folder(folder(
                        "old",
                        vec![found("c", "/share/notes/old/c", "/share/notes/old/c")],
                    )),
                ],
            )),
            found("b.tar.gz", "/share/b.tar.gz", "/share/b.tar.gz"),
            Entry::Folder(folder("empty", vec![])),
        ],
    )
}

fn tree_folder(name: &str, children: Vec<FileTree>) -> FileTree {
    FileTree::Folder((name.to_string(), children))
}

fn tree_file(name: &str, hash: &str) -> FileTree {
    FileTree::File((name.to_string(), hash.to_string()))
}

fn sorted(list: &FileList) -> Vec<String> {
    let mut hashes = list.hashes().clone();
    hashes.sort();
    hashes
}

#[test]
fn folders_are_published_as_trees() {
    let (trees, list) = folder_into_file_tree(vec![share(), folder("other", vec![])])
        .ok()
        .unwrap();
    let expected = vec![
        tree_folder(
            "share",
            vec![
                tree_folder(
                    "notes",
                    vec![
                        tree_file("a.txt", HASH_OF_A),
                        tree_folder("old", vec![tree_file("c", HASH_OF_C)]),
                    ],
                ),
                tree_file("b.tar.gz", HASH_OF_B),
                tree_folder("empty", vec![]),
            ],
        ),
        tree_folder("other", vec![]),
    ];
    assert!(same_trees(&trees, &expected));
    assert_eq!(sorted(&list), vec![HASH_OF_A, HASH_OF_B, HASH_OF_C]);
    assert_eq!(list.get(HASH_OF_A), Some(&PathBuf::from("/share/notes/a.txt")));
    assert_eq!(list.get(HASH_OF_B), Some(&PathBuf::from("/share/b.tar.gz")));
    assert_eq!(list.get(HASH_OF_C), Some(&PathBuf::from("/share/notes/old/c")));
    assert_eq!(list.get("/share/b.tar.gz"), None);
}

#[test]
fn hash_is_the_sha256_of_the_text_of_the_path() {
    let (_, list) = folder_into_file_tree(vec![folder("f", vec![found("x", "hello", "/x")])])
        .ok()
        .unwrap();
    assert_eq!(
        list.hashes().clone(),
        vec!["2cf24dba5fb0a30e26e83b2ac5b9e29e1b161e5c1fa7425e73043362938b9824".to_string()]
    );
}

#[test]
fn no_folders_publish_nothing() {
    let (trees, list) = folder_into_file_tree(vec![]).ok().unwrap();
    assert!(trees.is_empty());
    assert!(list.hashes().is_empty());
}

#[test]
fn trees_list_the_files_that_can_be_requested() {
    fn listed(tree: &FileTree, hashes: &mut Vec<String>) {
        match tree {
            FileTree::Folder((_, children)) => {
                for child in children {
                    listed(child, hashes);
                }
            }
            FileTree::File((_, hash)) => hashes.push(hash.clone()),
            FileTree::Empty => {}
        }
    }
    let (trees, list) = folder_into_file_tree(vec![share()]).ok().unwrap();
    let mut hashes = Vec::new();
    for tree in &trees {
        listed(tree, &mut hashes);
    }
    hashes.sort();
    assert_eq!(hashes, sorted(&list));
}

#[test]
fn last_file_with_a_hash_stays() {
    let (trees, list) = folder_into_file_tree(vec![
        folder(
            "f",
            vec![
                found("x", "hello", "/first"),
                Entry::Folder(folder("inner", vec![found("y", "hello", "/second")])),
            ],
        ),
        folder("g", vec![found("z", "hello", "/third")]),
    ])
    .ok()
    .unwrap();
    assert_eq!(trees.len(), 2);
    assert_eq!(list.hashes().len(), 1);
    assert_eq!(list.get(&list.hashes()[0]), Some(&PathBuf::from("/third")));
}

#[test]
fn unreadable_folder_stops_all() {
    let error = folder_into_file_tree(vec![share(), unreadable(Some("x"))]).err().unwrap();
    assert!(matches!(error, ScanError::Unreadable(reason) if reason == "denied"));
    let nested = folder("f", vec![Entry::Folder(unreadable(Some("x")))]);
    let error = folder_into_file_tree(vec![nested]).err().unwrap();
    assert!(matches!(error, ScanError::Unreadable(reason) if reason == "denied"));
}

#[test]
fn unreadable_entry_stops_all() {
    let broken = folder(
        "f",
        vec![found("x", "hello", "/x"), Entry::Unreadable("gone".to_string())],
    );
    let error = folder_into_file_tree(vec![broken]).err().unwrap();
    assert!(matches!(error, ScanError::Unreadable(reason) if reason == "gone"));
}

#[test]
fn path_without_a_name_stops_all() {
    let root = Folder { name: None, contents: Contents::Entries(vec![]) };
    assert!(matches!(
        folder_into_file_tree(vec![root]).err(),
        Some(ScanError::MissingName)
    ));
    let nameless = Entry::File(FoundFile {
        name: None,
        text: "/".to_string(),
        path: PathBuf::from("/"),
    });
    assert!(matches!(
        folder_into_file_tree(vec![folder("f", vec![nameless])]).err(),
        Some(ScanError::MissingName)
    ));
    let nested = Folder { name: None, contents: Contents::Entries(vec![]) };
    assert!(matches!(
        folder_into_file_tree(vec![folder("f", vec![Entry::Folder(nested)])]).err(),
        Some(ScanError::MissingName)
    ));
}

#[test]
fn first_fault_is_told() {
    let broken = folder(
        "f",
        vec![
            Entry::Folder(folder("g", vec![Entry::Unreadable("first".to_string())])),
            Entry::Unreadable("second".to_string()),
        ],
    );
    let error = folder_into_file_tree(vec![broken, unreadable(None)]).err().unwrap();
    assert!(matches!(error, ScanError::Unreadable(reason) if reason == "first"));
    let error = folder_into_file_tree(vec![unreadable(None)]).err().unwrap();
    assert!(matches!(error, ScanError::Unreadable(reason) if reason == "denied"));
    let nested = folder("f", vec![Entry::Folder(unreadable(None))]);
    let error = folder_into_file_tree(vec![nested]).err().unwrap();
    assert!(matches!(error, ScanError::MissingName));
}

#[test]
fn list_replaces_the_path_of_a_hash() {
    let mut list = FileList::new();
    assert_eq!(list.get("h"), None);
    list.insert("h".to_string(), PathBuf::from("/one"));
    list.insert("g".to_string(), PathBuf::from("/two"));
    list.insert("h".to_string(), PathBuf::from("/three"));
    assert_eq!(list.get("h"), Some(&PathBuf::from("/three")));
    assert_eq!(list.get("g"), Some(&PathBuf::from("/two")));
    assert_eq!(sorted(&list), vec!["g", "h"]);
}

#[test]
fn copy_of_a_list_holds_the_same_paths() {
    let mut list = FileList::new();
    list.insert("h".to_string(), PathBuf::from("/one"));
    list.insert("g".to_string(), PathBuf::from("/two"));
    let copy = list.clone();
    list.insert("h".to_string(), PathBuf::from("/changed"));
    assert_eq!(sorted(&copy), vec!["g", "h"]);
    assert_eq!(copy.get("h"), Some(&PathBuf::from("/one")));
    assert_eq!(copy.get("g"), Some(&PathBuf::from("/two")));
}

#[test]
fn faults_are_told_in_words() {
    assert_eq!(ScanError::MissingName.text(), "File name doesnt exist");
    assert_eq!(ScanError::Unreadable("denied".to_string()).text(), "denied");
}

#[test]
fn hashes_are_made_of_64_hexadecimal_digits() {
    let (_, list) = folder_into_file_tree(vec![share()]).ok().unwrap();
    for hash in list.hashes() {
        assert_eq!(hash.len(), 64);
        assert!(hash.chars().all(|c| matches!(c, '0'..='9' | 'a'..='f')));
    }
}
