use file_sharing::dialog::{is_savable, save_dialog};

fn proposed(name: &str) -> (String, String, String) {
    assert!(is_savable(name));
    let dialog = save_dialog(name);
    (dialog.file_name, dialog.filter_name, dialog.extension)
}

fn three(a: &str, b: &str, c: &str) -> (String, String, String) {
    (a.to_string(), b.to_string(), c.to_string())
}

#[test]
fn name_is_split_at_its_first_dot() {
    assert_eq!(proposed("song.mp3"), three("song", ".mp3", "mp3"));
    assert_eq!(proposed("backup.tar.gz"), three("backup", ".tar.gz", "tar.gz"));
    assert_eq!(proposed(".profile"), three("", ".profile", "profile"));
    assert_eq!(proposed("trailing."), three("trailing", ".", ""));
    assert_eq!(proposed("größe.txt"), three("größe", ".txt", "txt"));
}

#[test]
fn name_without_a_dot_is_split_at_its_start() {
    assert_eq!(proposed("README"), three("", "README", "EADME"));
    assert_eq!(proposed("x"), three("", "x", ""));
}

#[test]
fn names_that_cannot_be_split_are_not_savable() {
    assert!(!is_savable(""));
    assert!(!is_savable("émile"));
    assert!(is_savable("émile.txt"));
}

#[test]
fn proposal_keeps_the_name_and_holds_no_dot() {
    for name in ["a.b", "a.b.c", "...", "plain", ".x"] {
        let (file_name, filter_name, _) = proposed(name);
        assert_eq!(format!("{file_name}{filter_name}"), name);
        assert!(!file_name.contains('.'));
    }
}
