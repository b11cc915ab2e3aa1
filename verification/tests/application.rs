use std::path::PathBuf;

use file_sharing::application::{Application, ConnectMenu, HostMenu, Saved};
use file_sharing::display::display_file_tree;
use file_sharing::download::{DownloadHeader, FileResponseHeader};
use file_sharing::shared::{
    folder_into_file_tree, Contents, Entry, FileList, Folder, FoundFile, ScanError,
};
use file_sharing::stamp::{Stamp, LAST_PRINTABLE_SECOND};
use file_sharing::tree::{same_trees, FileTree};
use indexmap::IndexMap;

fn folder(name: &str, files: Vec<&str>) -> Folder {
    Folder {
        name: Some(name.to_string()),
        contents: Contents::Entries(
            files
                .into_iter()
                .map(|file| {
                    Entry::File(FoundFile {
                        name: Some(file.to_string()),
                        text: format!("/{name}/{file}"),
                        path: PathBuf::from(format!("/{name}/{file}")),
                    })
                })
                .collect(),
        ),
    }
}

fn header(id: &str, name: &str, seconds: i64) -> DownloadHeader {
    DownloadHeader {
        file_response: FileResponseHeader {
            packet_identificator: id.to_string(),
            file_name: name.to_string(),
            file_hash: format!("hash of {name}"),
            total_size: 4_096,
            file_packet_count: 2,
        },
        packet_list: vec![0, 1],
        arrived_bytes: 2_048,
        initiated_stamp: Stamp::new(seconds, 0, 3_600).unwrap(),
    }
}

fn saved() -> Saved {
    let mut shared_files = FileList::new();
    shared_files.insert("h".to_string(), PathBuf::from("/f/a"));
    let mut completed: IndexMap<String, DownloadHeader> = IndexMap::new();
    completed.insert("2".to_string(), header("2", "second", 0));
    completed.insert("1".to_string(), header("1", "first", 951_782_400));
    Saved {
        file_trees: vec![FileTree::Empty],
        port_buf: "8080".to_string(),
        remote_address: "[::1]:8080".to_string(),
        shared_folders: vec![PathBuf::from("/f")],
        shared_files,
        completed_download_header_list: completed,
    }
}

#[test]
fn application_starts_empty() {
    for app in [Application::default(), Application::new(None)] {
        assert!(app.file_trees.is_empty());
        assert_eq!(app.port_buf, "");
        assert_eq!(app.remote_address, "");
        assert!(app.shared_folders.is_empty());
        assert_eq!(app.server_instance, None);
        assert_eq!(app.connection_instance, None);
        assert!(app.shared_files.hashes().is_empty());
        assert!(app.temporary_download_header_list.is_empty());
        assert!(app.completed_download_header_list.is_empty());
        assert!(app.download_location.is_empty());
    }
}

#[test]
fn restart_keeps_what_is_saved() {
    let mut app = Application::new(Some(saved()));
    app.host(true);
    app.connect(vec![FileTree::File(("x".to_string(), "h".to_string()))]);
    app.request_file("h".to_string(), PathBuf::from("/save"));
    app.temporary_download_header_list
        .insert("3".to_string(), header("3", "third", 0));
    let again = Application::new(Some(app.save()));
    assert!(same_trees(&again.file_trees, &app.file_trees));
    assert_eq!(again.port_buf, "8080");
    assert_eq!(again.remote_address, "[::1]:8080");
    assert_eq!(again.shared_folders, vec![PathBuf::from("/f")]);
    assert_eq!(again.shared_files.get("h"), Some(&PathBuf::from("/f/a")));
    let ids: Vec<&String> = again.completed_download_header_list.keys().collect();
    assert_eq!(ids, vec!["2", "1"]);
    assert_eq!(again.completed_download_header_list[1].packet_list, vec![0, 1]);
    assert_eq!(again.completed_download_header_list[1].arrived_bytes, 2_048);
    assert_eq!(again.server_instance, None);
    assert_eq!(again.connection_instance, None);
    assert!(again.temporary_download_header_list.is_empty());
    assert!(again.download_location.is_empty());
    assert_eq!(app.completed_download_header_list.len(), 2);
}

#[test]
fn selected_folders_are_shared() {
    let mut app = Application::new(Some(saved()));
    let scan = folder_into_file_tree(vec![folder("g", vec!["x", "y"])]);
    app.select_folders(vec![PathBuf::from("/g")], scan);
    assert_eq!(app.shared_folders, vec![PathBuf::from("/g")]);
    assert_eq!(app.shared_files.hashes().len(), 2);
    assert_eq!(app.shared_files.get("h"), None);
    assert_eq!(app.file_trees.len(), 1);
}

#[test]
fn every_shared_file_can_be_had() {
    let scan = folder_into_file_tree(vec![folder("g", vec!["x", "y"])]);
    let mut app = Application::default();
    app.select_folders(vec![PathBuf::from("/g")], scan);
    for (answers, name) in [(vec![true, true], "x"), (vec![true, false, true], "y")] {
        let (hash, chosen) = display_file_tree(
            &app.file_trees,
            &app.temporary_download_header_list,
            &answers,
        )
        .unwrap();
        assert_eq!(chosen, name);
        assert_eq!(
            app.shared_files.get(&hash),
            Some(&PathBuf::from(format!("/g/{name}")))
        );
    }
}

#[test]
fn folders_that_cannot_be_published_are_not_shared() {
    let mut app = Application::new(Some(saved()));
    app.select_folders(vec![PathBuf::from("/g")], Err(ScanError::MissingName));
    assert_eq!(app.shared_folders, vec![PathBuf::from("/f")]);
    assert_eq!(app.shared_files.get("h"), Some(&PathBuf::from("/f/a")));
}

#[test]
fn new_scan_counts_while_hosting() {
    let scan = || folder_into_file_tree(vec![folder("f", vec!["a", "b"])]);
    let mut app = Application::new(Some(saved()));
    app.refresh_shared_files(scan());
    assert!(same_trees(&app.file_trees, &vec![FileTree::Empty]));
    app.host(true);
    app.refresh_shared_files(Err(ScanError::Unreadable("x".to_string())));
    assert!(same_trees(&app.file_trees, &vec![FileTree::Empty]));
    app.refresh_shared_files(scan());
    let (trees, _) = scan().ok().unwrap();
    assert!(same_trees(&app.file_trees, &trees));
    assert_eq!(app.shared_files.hashes().len(), 2);
    assert_eq!(app.shared_folders, vec![PathBuf::from("/f")]);
}

#[test]
fn scan_with_the_same_trees_changes_nothing() {
    let mut app = Application::default();
    app.host(true);
    let (trees, _) = folder_into_file_tree(vec![folder("f", vec!["a"])]).ok().unwrap();
    app.refresh_shared_files(folder_into_file_tree(vec![folder("f", vec!["a"])]));
    assert_eq!(app.shared_files.hashes().len(), 1);
    app.refresh_shared_files(Ok((trees, FileList::new())));
    assert_eq!(app.shared_files.hashes().len(), 1);
}

#[test]
fn host_menu_follows_the_state() {
    let mut app = Application::default();
    assert_eq!(
        app.host_menu(),
        HostMenu { editable: true, port: None, can_shut_down: false }
    );
    app.port_buf = "4433".to_string();
    app.host(false);
    assert_eq!(
        app.host_menu(),
        HostMenu { editable: true, port: Some(4433), can_shut_down: false }
    );
    app.host(true);
    assert_eq!(
        app.host_menu(),
        HostMenu { editable: false, port: Some(4433), can_shut_down: true }
    );
    app.shut_down();
    assert_eq!(app.server_instance, None);
    assert!(app.host_menu().editable);
}

#[test]
fn connect_menu_follows_the_state() {
    let mut app = Application::default();
    assert_eq!(
        app.connect_menu(),
        ConnectMenu { can_connect: true, can_disconnect: false }
    );
    app.connect(vec![FileTree::Empty]);
    assert_eq!(
        app.connect_menu(),
        ConnectMenu { can_connect: false, can_disconnect: true }
    );
    assert!(same_trees(&app.file_trees, &vec![FileTree::Empty]));
    app.disconnect();
    assert!(app.connect_menu().can_connect);
    assert!(same_trees(&app.file_trees, &vec![FileTree::Empty]));
}

#[test]
fn history_has_a_line_for_each_complete_download() {
    let app = Application::new(Some(saved()));
    assert_eq!(app.history_len(), 2);
    let lines: Vec<(String, String, u64, u64, String)> = (0..app.history_len())
        .map(|line| {
            assert!(app.can_show_line(line));
            let line = app.history_row(line);
            (
                line.file_name,
                line.file_hash,
                line.total_size,
                line.file_packet_count,
                line.date,
            )
        })
        .collect();
    assert_eq!(
        lines,
        vec![
            (
                "second".to_string(),
                "hash of second".to_string(),
                4_096,
                2,
                "Thu, 1 Jan 1970 01:00:00 +0100".to_string()
            ),
            (
                "first".to_string(),
                "hash of first".to_string(),
                4_096,
                2,
                "Tue, 29 Feb 2000 01:00:00 +0100".to_string()
            ),
        ]
    );
}

#[test]
fn line_of_the_history_needs_a_printable_date() {
    let mut app = Application::new(Some(saved()));
    app.completed_download_header_list
        .insert("3".to_string(), header("3", "third", LAST_PRINTABLE_SECOND));
    assert!(app.can_show_line(0));
    assert!(app.can_show_line(1));
    assert!(!app.can_show_line(2));
    assert!(!app.can_show_line(3));
    assert_eq!(app.history_row(1).file_name, "first");
    assert_eq!(Application::default().history_len(), 0);
    assert!(!Application::default().can_show_line(0));
}
