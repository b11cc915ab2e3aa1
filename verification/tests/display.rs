use file_sharing::display::{display_file_tree, display_rows, Progress, Row, TreeDisplay};
use file_sharing::download::{DownloadHeader, FileResponseHeader};
use file_sharing::stamp::Stamp;
use file_sharing::tree::FileTree;
use indexmap::IndexMap;

fn file(name: &str, hash: &str) -> FileTree {
    FileTree::File((name.to_string(), hash.to_string()))
}

fn folder(name: &str, children: Vec<FileTree>) -> FileTree {
    FileTree::Folder((name.to_string(), children))
}

fn header(id: &str, hash: &str, packets: Vec<u64>, arrived: usize) -> DownloadHeader {
    DownloadHeader {
        file_response: FileResponseHeader {
            packet_identificator: id.to_string(),
            file_name: "name".to_string(),
            file_hash: hash.to_string(),
            total_size: 1000,
            file_packet_count: 10,
        },
        packet_list: packets,
        arrived_bytes: arrived,
        initiated_stamp: Stamp::new(50, 0, 0).unwrap(),
    }
}

fn none() -> IndexMap<String, DownloadHeader> {
    IndexMap::new()
}

fn trees() -> Vec<FileTree> {
    vec![
        folder(
            "music",
            vec![
                file("a", "h1"),
                folder("live", vec![file("b", "h2"), FileTree::Empty]),
                file("c", "h3"),
            ],
        ),
        FileTree::Empty,
        folder("films", vec![file("d", "h4")]),
    ]
}

fn shown(rows: &Vec<Row>) -> Vec<String> {
    rows.iter()
        .map(|row| match row {
            Row::Folder { name, size } => format!("{name}/{size}"),
            Row::File { name, hash, .. } => format!("{name}:{hash}"),
            Row::Empty => "Empty".to_string(),
        })
        .collect()
}

fn pair(hash: &str, name: &str) -> Option<(String, String)> {
    Some((hash.to_string(), name.to_string()))
}

#[test]
fn trees_are_shown_from_top_to_bottom() {
    assert_eq!(
        shown(&display_rows(&trees(), &none())),
        vec![
            "music/5", "a:h1", "live/2", "b:h2", "Empty", "c:h3", "Empty", "films/1", "d:h4"
        ]
    );
}

#[test]
fn nothing_is_shown_behind_an_outermost_file() {
    let trees = vec![folder("f", vec![]), file("a", "h1"), file("b", "h2"), FileTree::Empty];
    assert_eq!(shown(&display_rows(&trees, &none())), vec!["f/0", "a:h1"]);
}

#[test]
fn file_shows_its_first_download() {
    let mut list = none();
    list.insert("1".to_string(), header("1", "other", vec![7], 1));
    list.insert("2".to_string(), header("2", "h4", vec![1, 2, 3], 300));
    list.insert("3".to_string(), header("3", "h4", vec![], 0));
    let rows = display_rows(&trees(), &list);
    let progress: Vec<Option<Progress>> = rows
        .iter()
        .filter_map(|row| match row {
            Row::File { progress, .. } => Some(*progress),
            _ => None,
        })
        .collect();
    assert_eq!(
        progress,
        vec![
            None,
            None,
            None,
            Some(Progress {
                received: 3,
                announced: 10,
                arrived_bytes: 300,
                started: Stamp::new(50, 0, 0).unwrap(),
            })
        ]
    );
}

#[test]
fn clicked_file_is_chosen() {
    let mut answers = vec![false; 9];
    answers[0] = true;
    answers[5] = true;
    assert_eq!(display_file_tree(&trees(), &none(), &answers), pair("h3", "c"));
}

#[test]
fn first_clicked_file_is_chosen() {
    assert_eq!(
        display_file_tree(&trees(), &none(), &vec![true; 9]),
        pair("h1", "a")
    );
}

#[test]
fn file_in_a_closed_folder_is_not_chosen() {
    let mut answers = vec![true; 9];
    answers[0] = false;
    assert_eq!(display_file_tree(&trees(), &none(), &answers), pair("h4", "d"));
    answers[7] = false;
    assert_eq!(display_file_tree(&trees(), &none(), &answers), None);
    let mut answers = vec![true; 9];
    answers[1] = false;
    answers[2] = false;
    assert_eq!(display_file_tree(&trees(), &none(), &answers), pair("h3", "c"));
}

#[test]
fn rows_without_an_answer_are_not_clicked() {
    assert_eq!(display_file_tree(&trees(), &none(), &vec![]), None);
    assert_eq!(display_file_tree(&trees(), &none(), &vec![true]), None);
    assert_eq!(display_file_tree(&vec![], &none(), &vec![true]), None);
}

#[test]
fn every_file_with_a_row_can_be_chosen() {
    let rows = display_rows(&trees(), &none());
    for (i, row) in rows.iter().enumerate() {
        if let Row::File { name, hash, .. } = row {
            let answers: Vec<bool> = rows
                .iter()
                .enumerate()
                .map(|(j, row)| matches!(row, Row::Folder { .. }) || i == j)
                .collect();
            assert_eq!(
                display_file_tree(&trees(), &none(), &answers),
                pair(hash, name)
            );
        }
    }
}

#[test]
fn display_passes_over_closed_folders() {
    let mut display = TreeDisplay::new(&trees(), &none());
    assert_eq!(display.index(), 0);
    assert!(matches!(display.row(), Some(Row::Folder { name, size: 5 }) if name == "music"));
    assert_eq!(display.answer(false), None);
    assert_eq!(display.index(), 6);
    assert!(matches!(display.row(), Some(Row::Empty)));
    assert_eq!(display.answer(true), None);
    assert_eq!(display.index(), 7);
    assert_eq!(display.answer(true), None);
    assert!(matches!(display.row(), Some(Row::File { name, .. }) if name == "d"));
    assert_eq!(display.answer(false), None);
    assert!(display.row().is_none());
    assert_eq!(display.answer(true), None);
    assert_eq!(display.index(), 9);
}

#[test]
fn clicked_file_ends_the_display() {
    let mut display = TreeDisplay::new(&trees(), &none());
    display.answer(true);
    assert_eq!(display.answer(true), pair("h1", "a"));
    assert!(display.row().is_none());
}
