use std::path::PathBuf;

use file_sharing::application::Application;
use file_sharing::download::{FilePacket, FileResponseHeader};
use file_sharing::message::{Message, MessageType};
use file_sharing::stamp::Stamp;
use file_sharing::transfer::{Reaction, Receipt};
use file_sharing::tree::{same_trees, FileTree};

fn response(id: &str, name: &str, count: u64) -> FileResponseHeader {
    FileResponseHeader {
        packet_identificator: id.to_string(),
        file_name: name.to_string(),
        file_hash: format!("hash of {name}"),
        total_size: 100,
        file_packet_count: count,
    }
}

fn packet(id: &str, name: &str, number: u64, bytes: Vec<u8>) -> FilePacket {
    FilePacket {
        parent_id: id.to_string(),
        packet_id: number,
        file_hash: format!("hash of {name}"),
        bytes,
    }
}

fn start() -> Stamp {
    Stamp::new(1_000, 0, 0).unwrap()
}

/// Counts a packet and settles it with all its bytes written, or none.
fn receive(app: &mut Application, packet: FilePacket, write: bool) -> Option<String> {
    let receipt: Receipt = app.receive_packet(packet).unwrap();
    let notice = receipt.notice.clone();
    let written = if write { Some(receipt.bytes.len()) } else { None };
    app.settle_packet(receipt, written);
    notice
}

fn ids_under_way(app: &Application) -> Vec<String> {
    app.temporary_download_header_list.keys().cloned().collect()
}

#[test]
fn click_without_a_connection_does_nothing() {
    let app = Application::default();
    assert!(app.choose_file(Some(("h".to_string(), "a.txt".to_string()))).is_none());
    assert!(app.choose_file(Some(("h".to_string(), "".to_string()))).is_none());
}

#[test]
fn clicked_file_is_saved_under_a_proposed_name() {
    let mut app = Application::default();
    app.connect(vec![]);
    assert!(app.choose_file(None).is_none());
    let (hash, dialog) = app
        .choose_file(Some(("h".to_string(), "a.tar.gz".to_string())))
        .unwrap();
    assert_eq!(hash, "h");
    assert_eq!(dialog.file_name, "a");
    assert_eq!(dialog.filter_name, ".tar.gz");
    assert_eq!(dialog.extension, "tar.gz");
}

#[test]
fn request_remembers_the_place_to_save() {
    let mut app = Application::default();
    let request = app.request_file("h".to_string(), PathBuf::from("/save"));
    assert!(matches!(request, Message(Some(MessageType::FileRequest(hash))) if hash == "h"));
    assert_eq!(app.download_location.get("h"), Some(&PathBuf::from("/save")));
}

#[test]
fn announcement_begins_a_download() {
    let mut app = Application::default();
    app.begin_download(response("1", "a", 3), start());
    let header = &app.temporary_download_header_list["1"];
    assert_eq!(header.file_response.file_name, "a");
    assert!(header.packet_list.is_empty());
    assert_eq!(header.arrived_bytes, 0);
    assert_eq!(header.initiated_stamp, start());
}

#[test]
fn second_announcement_replaces_the_first_in_its_place() {
    let mut app = Application::default();
    app.begin_download(response("1", "a", 3), start());
    app.begin_download(response("2", "b", 3), start());
    receive(&mut app, packet("1", "a", 0, vec![1]), true);
    app.begin_download(response("1", "c", 5), start());
    assert_eq!(ids_under_way(&app), vec!["1", "2"]);
    assert_eq!(app.temporary_download_header_list["1"].file_response.file_name, "c");
    assert!(app.temporary_download_header_list["1"].packet_list.is_empty());
}

#[test]
fn download_runs_from_announcement_to_history() {
    let mut app = Application::default();
    app.request_file("hash of a".to_string(), PathBuf::from("/save"));
    app.begin_download(response("1", "a", 3), start());
    assert_eq!(receive(&mut app, packet("1", "a", 7, vec![1, 2]), true), None);
    assert_eq!(receive(&mut app, packet("1", "a", 5, vec![3, 4, 5]), false), None);
    {
        let header = &app.temporary_download_header_list["1"];
        assert_eq!(header.packet_list, vec![7, 5]);
        assert_eq!(header.arrived_bytes, 2);
    }
    assert!(app.completed_download_header_list.is_empty());
    assert_eq!(app.bytes_written(&"1".to_string()), Some(2));
    assert_eq!(app.download_location.get("hash of a"), Some(&PathBuf::from("/save")));

    assert_eq!(
        receive(&mut app, packet("1", "a", 6, vec![9]), true),
        Some("a has finished downloading.".to_string())
    );
    assert!(app.temporary_download_header_list.is_empty());
    assert_eq!(app.bytes_written(&"1".to_string()), None);
    assert_eq!(app.download_location.get("hash of a"), None);
    let header = &app.completed_download_header_list["1"];
    assert_eq!(header.packet_list, vec![7, 5, 6]);
    assert_eq!(header.arrived_bytes, 2);
    assert_eq!(header.initiated_stamp, start());
}

#[test]
fn history_is_written_before_the_last_packet_is() {
    let mut app = Application::default();
    app.begin_download(response("1", "a", 1), start());
    app.request_file("hash of a".to_string(), PathBuf::from("/save"));
    let receipt = app.receive_packet(packet("1", "a", 0, vec![1, 2, 3])).unwrap();
    assert_eq!(receipt.location, Some(PathBuf::from("/save")));
    assert_eq!(receipt.parent_id, "1");
    assert_eq!(receipt.file_hash, "hash of a");
    assert_eq!(receipt.bytes, vec![1, 2, 3]);
    assert_eq!(ids_under_way(&app), vec!["1"]);
    assert_eq!(app.completed_download_header_list.len(), 1);
    app.settle_packet(receipt, Some(3));
    assert!(app.temporary_download_header_list.is_empty());
    assert_eq!(app.completed_download_header_list["1"].arrived_bytes, 0);
}

#[test]
fn packet_without_announcement_changes_nothing() {
    let mut app = Application::default();
    app.begin_download(response("1", "a", 2), start());
    assert!(app.receive_packet(packet("9", "a", 0, vec![1])).is_none());
    assert_eq!(ids_under_way(&app), vec!["1"]);
    assert!(app.temporary_download_header_list["1"].packet_list.is_empty());
    assert!(app.completed_download_header_list.is_empty());
}

#[test]
fn complete_download_leaves_its_place_to_the_last() {
    let mut app = Application::default();
    for (id, count) in [("1", 1), ("2", 5), ("3", 5)] {
        app.begin_download(response(id, id, count), start());
    }
    receive(&mut app, packet("3", "3", 8, vec![1, 2]), true);
    receive(&mut app, packet("1", "1", 0, vec![]), false);
    assert_eq!(ids_under_way(&app), vec!["3", "2"]);
    assert_eq!(app.temporary_download_header_list["3"].packet_list, vec![8]);
    assert_eq!(app.temporary_download_header_list["3"].arrived_bytes, 2);
    assert!(app.temporary_download_header_list["2"].packet_list.is_empty());
}

#[test]
fn download_without_packets_never_completes() {
    let mut app = Application::default();
    app.begin_download(response("1", "a", 0), start());
    for number in 0..3 {
        assert_eq!(receive(&mut app, packet("1", "a", number, vec![]), true), None);
    }
    assert_eq!(app.temporary_download_header_list["1"].packet_list, vec![0, 1, 2]);
}

#[test]
fn downloads_stay_under_their_identificators() {
    let mut app = Application::default();
    app.begin_download(response("1", "a", 1), start());
    app.begin_download(response("2", "b", 2), start());
    receive(&mut app, packet("1", "a", 0, vec![]), true);
    app.begin_download(response("1", "c", 1), start());
    receive(&mut app, packet("1", "c", 4, vec![]), true);
    receive(&mut app, packet("2", "b", 0, vec![]), true);
    assert_eq!(ids_under_way(&app), vec!["2"]);
    assert_eq!(app.completed_download_header_list.len(), 1);
    let header = &app.completed_download_header_list["1"];
    assert_eq!(header.file_response.file_name, "c");
    assert_eq!(header.packet_list, vec![4]);
    for (id, header) in &app.completed_download_header_list {
        assert_eq!(*id, header.file_response.packet_identificator);
        assert_eq!(header.packet_list.len() as u64, header.file_response.file_packet_count);
    }
}

#[test]
fn announcement_message_begins_a_download_now() {
    let mut app = Application::default();
    let before = Stamp::now();
    let message = Message(Some(MessageType::FileResponse(response("1", "a", 2))));
    assert!(message.from_host());
    assert!(matches!(app.receive_message(message), Reaction::Nothing));
    let started = app.temporary_download_header_list["1"].initiated_stamp;
    assert!(started.elapsed_since(&before) >= 0);
    assert!(Stamp::now().elapsed_since(&started) >= 0);
}

#[test]
fn packet_message_gives_a_receipt() {
    let mut app = Application::default();
    app.begin_download(response("1", "a", 1), start());
    let message = Message(Some(MessageType::FilePacket(packet("1", "a", 0, vec![5]))));
    assert!(message.from_host());
    match app.receive_message(message) {
        Reaction::Packet(receipt) => {
            assert_eq!(receipt.bytes, vec![5]);
            assert_eq!(receipt.location, None);
            assert_eq!(receipt.notice, Some("a has finished downloading.".to_string()));
        }
        _ => panic!("no receipt"),
    }
    let message = Message(Some(MessageType::FilePacket(packet("7", "a", 0, vec![5]))));
    assert!(matches!(app.receive_message(message), Reaction::Unannounced));
}

#[test]
fn tree_message_replaces_the_trees() {
    let mut app = Application::default();
    let trees = || vec![FileTree::Folder(("f".to_string(), vec![FileTree::Empty]))];
    let message = Message(Some(MessageType::FileTreeResponse(trees())));
    assert!(message.from_host());
    assert!(matches!(app.receive_message(message), Reaction::Nothing));
    assert!(same_trees(&app.file_trees, &trees()));
    let message = Message(Some(MessageType::KeepAlive));
    assert!(message.from_host());
    assert!(matches!(app.receive_message(message), Reaction::Nothing));
    assert!(same_trees(&app.file_trees, &trees()));
}

#[test]
fn empty_message_is_answered_by_asking_for_the_trees() {
    let mut app = Application::default();
    let message = Message(None);
    assert!(message.from_host());
    match app.receive_message(message) {
        Reaction::Send(Message(Some(MessageType::FileTreeRequest(trees)))) => {
            assert!(trees.is_empty())
        }
        _ => panic!("nothing is asked for"),
    }
}

#[test]
fn requests_do_not_come_from_a_host() {
    assert!(!Message(Some(MessageType::FileRequest("h".to_string()))).from_host());
    assert!(!Message(Some(MessageType::FileTreeRequest(vec![]))).from_host());
}

#[test]
fn downloads_may_run_at_the_same_time() {
    let mut app = Application::default();
    app.begin_download(response("1", "a", 2), start());
    receive(&mut app, packet("1", "a", 10, vec![1, 2, 3]), true);
    app.begin_download(response("2", "b", 1), start());
    assert!(receive(&mut app, packet("2", "b", 20, vec![4]), true).is_some());
    app.begin_download(response("3", "c", 9), start());
    receive(&mut app, packet("3", "c", 30, vec![5, 6]), true);
    assert_eq!(app.bytes_written(&"1".to_string()), Some(3));
    assert!(receive(&mut app, packet("1", "a", 11, vec![7]), true).is_some());
    assert_eq!(ids_under_way(&app), vec!["3"]);
    let ids: Vec<&String> = app.completed_download_header_list.keys().collect();
    assert_eq!(ids, vec!["2", "1"]);
    let header = &app.completed_download_header_list["1"];
    assert_eq!(header.packet_list, vec![10, 11]);
    assert_eq!(header.arrived_bytes, 3);
}

#[test]
fn late_packet_does_not_reach_the_history() {
    let mut app = Application::default();
    app.begin_download(response("1", "a", 1), start());
    receive(&mut app, packet("1", "a", 0, vec![]), true);
    assert!(app.receive_packet(packet("1", "a", 1, vec![8])).is_none());
    assert_eq!(app.completed_download_header_list["1"].packet_list, vec![0]);
    assert!(app.temporary_download_header_list.is_empty());
}

#[test]
fn packets_stay_in_order_through_a_run() {
    fn check(app: &Application, ids_before: &mut Vec<String>) {
        for header in app.temporary_download_header_list.values() {
            let announced = header.file_response.file_packet_count;
            assert!(announced == 0 || (header.packet_list.len() as u64) < announced);
        }
        for header in app.completed_download_header_list.values() {
            assert_eq!(header.packet_list.len() as u64, header.file_response.file_packet_count);
        }
        for id in ids_before.iter() {
            assert!(app.completed_download_header_list.contains_key(id));
        }
        *ids_before = app.completed_download_header_list.keys().cloned().collect();
    }
    let mut app = Application::default();
    let mut ids = Vec::new();
    for (id, count) in [("1", 2), ("2", 0), ("3", 1), ("1", 3)] {
        app.begin_download(response(id, id, count), start());
        check(&app, &mut ids);
    }
    for (i, id) in ["1", "2", "3", "1", "3", "2", "1", "1", "9"].into_iter().enumerate() {
        if let Some(receipt) = app.receive_packet(packet(id, id, i as u64, vec![0])) {
            app.settle_packet(receipt, Some(1));
        }
        check(&app, &mut ids);
    }
    app.begin_download(response("3", "3", 2), start());
    app.connect(vec![]);
    app.disconnect();
    app.host(true);
    app.shut_down();
    check(&app, &mut ids);
    assert_eq!(ids, vec!["3", "1"]);
    let mut app = Application::new(Some(app.save()));
    check(&app, &mut ids);
    app.begin_download(response("1", "again", 1), start());
    receive(&mut app, packet("1", "again", 0, vec![]), false);
    check(&app, &mut ids);
    assert_eq!(ids, vec!["3", "1"]);
}
