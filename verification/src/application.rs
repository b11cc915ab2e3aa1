//! The state of the application, and what each event does to it.

use crate::display::{
    chosen_file, is_row_of, lemma_every_listed_file_is_shown,
    lemma_every_shown_file_can_be_chosen, shown_rows,
};
use crate::download::{
    DownloadHeader, Entries, HeaderView, at, copy_list, distinct_ids, entries, len, new_list,
};
use crate::port::{parse_port, port_number};
use crate::shared::{
    FileList, Folder, ScanError, folders_fault, folders_files, folders_trees,
    lemma_hash_leads_to_last_file, lemma_listed_files_can_be_requested,
    lemma_trees_list_every_file, listing_of, sha256_text, with_files,
};
use crate::stamp::rfc2822_text;
use crate::tree::{FileTree, TreeView, copy_trees, forest, lists_hash, same_trees};
use indexmap::IndexMap;
use vstd::hash_map::StringHashMap;
use vstd::prelude::*;

verus! {

/// The state of the application.
pub struct Application {
    /// The trees on display: those that are shared, or those of the host.
    pub file_trees: Vec<FileTree>,
    /// The port to host on, as it was typed in.
    pub port_buf: String,
    /// The address to connect to, as it was typed in.
    pub remote_address: String,
    /// The folders that are shared.
    pub shared_folders: Vec<std::path::PathBuf>,
    /// Whether the application hosts.
    pub server_instance: Option<()>,
    /// Whether the application is connected to a host.
    pub connection_instance: Option<()>,
    /// The files that are shared.
    pub shared_files: FileList,
    /// The downloads under way, by their identificators.
    pub temporary_download_header_list: IndexMap<String, DownloadHeader>,
    /// The downloads that are complete, by their identificators.
    pub completed_download_header_list: IndexMap<String, DownloadHeader>,
    /// Where files are to be saved, by their hashes.
    pub download_location: StringHashMap<std::path::PathBuf>,
}

/// What is kept of the state from one run to the next.
pub struct Saved {
    pub file_trees: Vec<FileTree>,
    pub port_buf: String,
    pub remote_address: String,
    pub shared_folders: Vec<std::path::PathBuf>,
    pub shared_files: FileList,
    pub completed_download_header_list: IndexMap<String, DownloadHeader>,
}

/// The mathematical value of an [`Application`].
#[verifier::ext_equal]
pub struct AppView {
    pub file_trees: Seq<TreeView>,
    pub port_buf: Seq<char>,
    pub remote_address: Seq<char>,
    pub shared_folders: Seq<std::path::PathBuf>,
    pub hosting: bool,
    pub connected: bool,
    pub shared_files: Map<Seq<char>, std::path::PathBuf>,
    pub temporary: Entries,
    pub completed: Entries,
    pub locations: Map<Seq<char>, std::path::PathBuf>,
}

/// The mathematical value of a [`Saved`].
#[verifier::ext_equal]
pub struct SavedView {
    pub file_trees: Seq<TreeView>,
    pub port_buf: Seq<char>,
    pub remote_address: Seq<char>,
    pub shared_folders: Seq<std::path::PathBuf>,
    pub shared_files: Map<Seq<char>, std::path::PathBuf>,
    pub completed: Entries,
}

impl View for Application {
    type V = AppView;

    open spec fn view(&self) -> AppView {
        AppView {
            file_trees: forest(self.file_trees@),
            port_buf: self.port_buf@,
            remote_address: self.remote_address@,
            shared_folders: self.shared_folders@,
            hosting: self.server_instance is Some,
            connected: self.connection_instance is Some,
            shared_files: self.shared_files@,
            temporary: entries(self.temporary_download_header_list),
            completed: entries(self.completed_download_header_list),
            locations: self.download_location@,
        }
    }
}

impl View for Saved {
    type V = SavedView;

    open spec fn view(&self) -> SavedView {
        SavedView {
            file_trees: forest(self.file_trees@),
            port_buf: self.port_buf@,
            remote_address: self.remote_address@,
            shared_folders: self.shared_folders@,
            shared_files: self.shared_files@,
            completed: entries(self.completed_download_header_list),
        }
    }
}

/// Whether no identificator stands twice among the downloads under way, nor in the history.
pub open spec fn ids_are_distinct(app: AppView) -> bool {
    distinct_ids(app.temporary) && distinct_ids(app.completed)
}

/// The state in which nothing has happened yet.
pub open spec fn initial() -> AppView {
    AppView {
        file_trees: Seq::empty(),
        port_buf: Seq::empty(),
        remote_address: Seq::empty(),
        shared_folders: Seq::empty(),
        hosting: false,
        connected: false,
        shared_files: Map::empty(),
        temporary: Seq::empty(),
        completed: Seq::empty(),
        locations: Map::empty(),
    }
}

/// The state at the start of a run, from what was kept of the last one: it neither hosts nor is
/// connected, and no download is under way.
pub open spec fn restored(saved: SavedView) -> AppView {
    AppView {
        file_trees: saved.file_trees,
        port_buf: saved.port_buf,
        remote_address: saved.remote_address,
        shared_folders: saved.shared_folders,
        shared_files: saved.shared_files,
        completed: saved.completed,
        ..initial()
    }
}

/// What is kept of a state.
pub open spec fn kept(app: AppView) -> SavedView {
    SavedView {
        file_trees: app.file_trees,
        port_buf: app.port_buf,
        remote_address: app.remote_address,
        shared_folders: app.shared_folders,
        shared_files: app.shared_files,
        completed: app.completed,
    }
}

impl Default for Application {
    fn default() -> (app: Application)
        ensures
            app@ == initial(),
            app.file_trees@.len() == 0,
            app.port_buf@.len() == 0,
            app.remote_address@.len() == 0,
            app.shared_folders@.len() == 0,
            app.server_instance is None,
            app.connection_instance is None,
            forall|hash: Seq<char>| !#[trigger] app.shared_files@.contains_key(hash),
            entries(app.temporary_download_header_list).len() == 0,
            entries(app.completed_download_header_list).len() == 0,
            forall|hash: Seq<char>| !#[trigger] app.download_location@.contains_key(hash),
    {
        let app = Application {
            file_trees: Vec::new(),
            port_buf: String::new(),
            remote_address: String::new(),
            shared_folders: Vec::new(),
            server_instance: None,
            connection_instance: None,
            shared_files: FileList::new(),
            temporary_download_header_list: new_list(),
            completed_download_header_list: new_list(),
            download_location: StringHashMap::new(),
        };
        assert(app@ =~= initial());
        app
    }
}

impl Application {
    /// The state at the start of a run, from what was kept of the last one, if anything.
    pub fn new(saved: Option<Saved>) -> (app: Application)
        ensures
            app@ == match saved {
                Some(saved) => restored(saved@),
                None => initial(),
            },
            ids_are_distinct(app@),
            saved matches Some(saved) ==> {
                &&& forest(app.file_trees@) == forest(saved.file_trees@)
                &&& app.port_buf@ == saved.port_buf@
                &&& app.remote_address@ == saved.remote_address@
                &&& app.shared_folders@ == saved.shared_folders@
                &&& app.shared_files@ == saved.shared_files@
                &&& entries(app.completed_download_header_list) == entries(
                    saved.completed_download_header_list,
                )
            },
            app.server_instance is None,
            app.connection_instance is None,
            entries(app.temporary_download_header_list).len() == 0,
            forall|hash: Seq<char>| !#[trigger] app.download_location@.contains_key(hash),
    {
        match saved {
            Some(saved) => Application {
                file_trees: saved.file_trees,
                port_buf: saved.port_buf,
                remote_address: saved.remote_address,
                shared_folders: saved.shared_folders,
                server_instance: None,
                connection_instance: None,
                shared_files: saved.shared_files,
                temporary_download_header_list: new_list(),
                completed_download_header_list: copy_list(&saved.completed_download_header_list),
                download_location: StringHashMap::new(),
            },
            None => Default::default(),
        }
    }

    /// What is to be kept for the next run.
    pub fn save(&self) -> (saved: Saved)
        ensures
            saved@ == kept(self@),
            distinct_ids(saved@.completed),
            forest(saved.file_trees@) == forest(self.file_trees@),
            saved.port_buf@ == self.port_buf@,
            saved.remote_address@ == self.remote_address@,
            saved.shared_folders@ == self.shared_folders@,
            saved.shared_files@ == self.shared_files@,
            entries(saved.completed_download_header_list) == entries(
                self.completed_download_header_list,
            ),
    {
        let saved = Saved {
            file_trees: copy_trees(&self.file_trees),
            port_buf: self.port_buf.clone(),
            remote_address: self.remote_address.clone(),
            shared_folders: self.shared_folders.clone(),
            shared_files: self.shared_files.clone(),
            completed_download_header_list: copy_list(&self.completed_download_header_list),
        };
        assert(saved.shared_folders@ =~= self.shared_folders@);
        saved
    }
}

/// The trees and the list of files that a scan of folders published.
pub type Scan = Result<(Vec<FileTree>, FileList), ScanError>;

/// The state after the shared folders were scanned again while hosting: what was published
/// replaces the trees and the files, if the trees differ.
pub open spec fn refreshed(app: AppView, scan: Scan) -> AppView {
    match scan {
        Ok((trees, files)) => if app.hosting && app.file_trees != forest(trees@) {
            AppView { file_trees: forest(trees@), shared_files: files@, ..app }
        } else {
            app
        },
        Err(_) => app,
    }
}

/// The state after folders were selected: they are shared, if they could be published.
pub open spec fn with_folders(
    app: AppView,
    folders: Seq<std::path::PathBuf>,
    scan: Scan,
) -> AppView {
    match scan {
        Ok((trees, files)) => AppView {
            shared_folders: folders,
            file_trees: forest(trees@),
            shared_files: files@,
            ..app
        },
        Err(_) => app,
    }
}

/// What the menu to host offers.
#[derive(Clone, Copy, Debug, PartialEq, Eq, Structural)]
pub struct HostMenu {
    /// Whether the port and the folders can be changed.
    pub editable: bool,
    /// The port that was typed in, if it is one: only then hosting can be started.
    pub port: Option<u16>,
    /// Whether hosting can be ended.
    pub can_shut_down: bool,
}

/// What the menu to connect offers.
#[derive(Clone, Copy, Debug, PartialEq, Eq, Structural)]
pub struct ConnectMenu {
    pub can_connect: bool,
    pub can_disconnect: bool,
}

/// A line of the download history.
pub struct HistoryRow {
    pub file_name: String,
    pub file_hash: String,
    pub total_size: u64,
    pub file_packet_count: u64,
    pub date: String,
}

/// The mathematical value of a [`HistoryRow`].
#[verifier::ext_equal]
pub struct HistoryView {
    pub file_name: Seq<char>,
    pub file_hash: Seq<char>,
    pub total_size: u64,
    pub packet_count: u64,
    pub date: Seq<char>,
}

impl View for HistoryRow {
    type V = HistoryView;

    open spec fn view(&self) -> HistoryView {
        HistoryView {
            file_name: self.file_name@,
            file_hash: self.file_hash@,
            total_size: self.total_size,
            packet_count: self.file_packet_count,
            date: self.date@,
        }
    }
}

/// The line of the history for a download.
pub open spec fn history_line(header: HeaderView) -> HistoryView {
    HistoryView {
        file_name: header.response.file_name,
        file_hash: header.response.file_hash,
        total_size: header.response.total_size,
        packet_count: header.response.packet_count,
        date: rfc2822_text(
            header.started.seconds(),
            header.started.nanos(),
            header.started.offset(),
        ),
    }
}

impl Application {
    /// Takes the outcome of a new scan of the shared folders.
    pub fn refresh_shared_files(&mut self, scan: Scan)
        ensures
            final(self)@ == refreshed(old(self)@, scan),
            old(self).server_instance is Some ==> (scan matches Ok((trees, files)) ==> forest(
                final(self).file_trees@,
            ) == forest(trees@) && final(self).shared_files@ == if forest(old(self).file_trees@)
                == forest(trees@) {
                old(self).shared_files@
            } else {
                files@
            }),
            old(self).server_instance is None || scan is Err ==> final(self)@ == old(self)@,
    {
        if self.server_instance.is_some() {
            if let Ok((file_trees, shared_files)) = scan {
                if !same_trees(&self.file_trees, &file_trees) {
                    self.file_trees = file_trees;
                    self.shared_files = shared_files;
                }
            }
        }
    }

    /// Takes the folders that were selected, and the outcome of their scan.
    pub fn select_folders(&mut self, folders: Vec<std::path::PathBuf>, scan: Scan)
        ensures
            final(self)@ == with_folders(old(self)@, folders@, scan),
            scan matches Ok((trees, files)) ==> final(self).shared_folders@ == folders@ && forest(
                final(self).file_trees@,
            ) == forest(trees@) && final(self).shared_files@ == files@,
            scan is Err ==> final(self)@ == old(self)@,
    {
        if let Ok((file_trees, shared_files)) = scan {
            self.shared_folders = folders;
            self.file_trees = file_trees;
            self.shared_files = shared_files;
        }
    }

    /// What the menu to host offers.
    pub fn host_menu(&self) -> (menu: HostMenu)
        ensures
            menu.editable == !self@.hosting,
            menu.port == port_number(self@.port_buf),
            menu.can_shut_down == self@.hosting,
    {
        HostMenu {
            editable: self.server_instance.is_none(),
            port: parse_port(self.port_buf.as_str()),
            can_shut_down: self.server_instance.is_some(),
        }
    }

    /// Takes the outcome of starting to host.
    pub fn host(&mut self, started: bool)
        ensures
            final(self)@ == (AppView { hosting: started || old(self)@.hosting, ..old(self)@ }),
    {
        if started {
            self.server_instance = Some(());
        }
    }

    /// Ends hosting.
    pub fn shut_down(&mut self)
        ensures
            final(self)@ == (AppView { hosting: false, ..old(self)@ }),
    {
        self.server_instance = None;
    }

    /// What the menu to connect offers.
    pub fn connect_menu(&self) -> (menu: ConnectMenu)
        ensures
            menu.can_connect == !self@.connected,
            menu.can_disconnect == self@.connected,
    {
        ConnectMenu {
            can_connect: self.connection_instance.is_none(),
            can_disconnect: self.connection_instance.is_some(),
        }
    }

    /// Takes a new connection, with the trees that its host publishes.
    pub fn connect(&mut self, file_trees: Vec<FileTree>)
        ensures
            final(self)@ == (AppView {
                file_trees: forest(file_trees@),
                connected: true,
                ..old(self)@
            }),
    {
        self.file_trees = file_trees;
        self.connection_instance = Some(());
    }

    /// Ends the connection.
    pub fn disconnect(&mut self)
        ensures
            final(self)@ == (AppView { connected: false, ..old(self)@ }),
    {
        self.connection_instance = None;
    }

    /// How many lines the download history has: one for each complete download.
    pub fn history_len(&self) -> (count: usize)
        ensures
            count == self@.completed.len(),
    {
        len(&self.completed_download_header_list)
    }

    /// Whether a line of the history can be shown: there is one, and its download began on a day
    /// that an RFC 2822 date can name.
    pub fn can_show_line(&self, line: usize) -> (can: bool)
        ensures
            can == (line < self@.completed.len()
                && self@.completed[line as int].1.started.printable()),
    {
        if line >= len(&self.completed_download_header_list) {
            return false;
        }
        let header: &DownloadHeader = at(&self.completed_download_header_list, line);
        let printable = header.initiated_stamp.is_printable();
        assert(header@.started == header.initiated_stamp);
        printable
    }

    /// A line of the download history, in the order of the complete downloads.
    pub fn history_row(&self, line: usize) -> (row: HistoryRow)
        requires
            line < self@.completed.len(),
            self@.completed[line as int].1.started.printable(),
        ensures
            row@ == history_line(self@.completed[line as int].1),
            ({
                let header = self@.completed[line as int].1;
                &&& row.file_name@ == header.response.file_name
                &&& row.file_hash@ == header.response.file_hash
                &&& row.total_size == header.response.total_size
                &&& row.file_packet_count == header.response.packet_count
                &&& row.date@ == rfc2822_text(
                    header.started.seconds(),
                    header.started.nanos(),
                    header.started.offset(),
                )
            }),
    {
        let header: &DownloadHeader = at(&self.completed_download_header_list, line);
        assert(header@.started == header.initiated_stamp);
        HistoryRow {
            file_name: header.file_response.file_name.clone(),
            file_hash: header.file_response.file_hash.clone(),
            total_size: header.file_response.total_size,
            file_packet_count: header.file_response.file_packet_count,
            date: header.initiated_stamp.to_rfc2822(),
        }
    }
}

/// Whether the list of shared files holds exactly the hashes that the trees on display list.
pub open spec fn shares_what_it_lists(app: AppView) -> bool {
    forall|hash: Seq<char>| #[trigger]
        app.shared_files.contains_key(hash) <==> lists_hash(app.file_trees, hash)
}

/// Whether a scan is the outcome of publishing folders.
pub open spec fn is_scan_of(scan: Scan, folders: Seq<Folder>) -> bool {
    match scan {
        Ok((trees, files)) => {
            &&& folders_fault(folders) is None
            &&& forest(trees@) == folders_trees(folders)
            &&& files@ == with_files(Map::empty(), folders_files(folders))
        },
        Err(error) => folders_fault(folders) == Some(error@),
    }
}

/// What is kept from one run to the next comes back unchanged, and nothing else does: the new run
/// neither hosts nor is connected, and has no download under way.
pub proof fn lemma_restart_keeps_what_is_saved(app: AppView)
    ensures
        kept(restored(kept(app))) == kept(app),
        restored(kept(app)) == (AppView {
            hosting: false,
            connected: false,
            temporary: Seq::empty(),
            locations: Map::empty(),
            ..app
        }),
{
}

/// Once the folders that were selected are shared, every file that is listed can be requested, and
/// no other.
pub proof fn lemma_selected_folders_are_shared(
    app: AppView,
    paths: Seq<std::path::PathBuf>,
    scan: Scan,
    folders: Seq<Folder>,
)
    requires
        is_scan_of(scan, folders),
        scan is Ok,
    ensures
        shares_what_it_lists(with_folders(app, paths, scan)),
        with_folders(app, paths, scan).shared_folders == paths,
{
    let after = with_folders(app, paths, scan);
    assert forall|hash: Seq<char>| #[trigger]
        after.shared_files.contains_key(hash) <==> lists_hash(after.file_trees, hash) by {
        lemma_listed_files_can_be_requested(folders, hash);
    }
}

/// Every file below shared folders can be chosen and is found: there are clicks that choose it among
/// the trees that are published of them, whatever is being downloaded, and its hash leads to its
/// path, unless a later file has the same hash.
pub proof fn lemma_every_shared_file_can_be_chosen(
    folders: Seq<Folder>,
    headers: Seq<HeaderView>,
    i: int,
)
    requires
        folders_fault(folders) is None,
        0 <= i < folders_files(folders).len(),
    ensures
        ({
            let files = folders_files(folders);
            let hash = sha256_text(files[i].text@);
            let shared = with_files(Map::empty(), files);
            &&& exists|answers: Seq<bool>| #[trigger]
                chosen_file(shown_rows(folders_trees(folders), headers), answers) == Some(
                    (hash, files[i].name->0@),
                )
            &&& shared.contains_key(hash)
            &&& (forall|j: int|
                i < j < files.len() ==> sha256_text((#[trigger] files[j]).text@) != hash)
                ==> shared[hash] == files[i].path
        }),
{
    let files = folders_files(folders);
    let trees = folders_trees(folders);
    let hash = sha256_text(files[i].text@);
    let pair = (hash, files[i].name->0@);
    lemma_trees_list_every_file(folders);
    assert(listing_of(files)[i] == pair);
    lemma_every_listed_file_is_shown(trees, headers, pair);
    let rows = shown_rows(trees, headers);
    let k = choose|k: int| 0 <= k < rows.len() && is_row_of(#[trigger] rows[k], pair);
    lemma_every_shown_file_can_be_chosen(trees, headers, k);
    lemma_listed_files_can_be_requested(folders, hash);
    assert(lists_hash(trees, hash));
    if forall|j: int| i < j < files.len() ==> sha256_text((#[trigger] files[j]).text@) != hash {
        lemma_hash_leads_to_last_file(Map::empty(), files, i);
    }
}

/// A new scan keeps it so that every file that is listed can be requested, and no other.
pub proof fn lemma_refresh_keeps_files_shared(app: AppView, scan: Scan, folders: Seq<Folder>)
    requires
        is_scan_of(scan, folders),
        shares_what_it_lists(app),
    ensures
        shares_what_it_lists(refreshed(app, scan)),
{
    let after = refreshed(app, scan);
    assert forall|hash: Seq<char>| #[trigger]
        after.shared_files.contains_key(hash) <==> lists_hash(after.file_trees, hash) by {
        if scan is Ok {
            lemma_listed_files_can_be_requested(folders, hash);
        }
        assert(app.shared_files.contains_key(hash) <==> lists_hash(app.file_trees, hash));
    }
}

/// A scan that finds what is on display changes nothing, nor does any scan while not hosting, and
/// taking a scan twice is the same as taking it once.
pub proof fn lemma_refresh_is_idempotent(app: AppView, scan: Scan)
    ensures
        !app.hosting ==> refreshed(app, scan) == app,
        refreshed(refreshed(app, scan), scan) == refreshed(app, scan),
{
}

/// The value of the application is made of all its parts, and so is what is kept of it.
pub proof fn lemma_value_of_the_application(app: Application, saved: Saved)
    ensures
        app@.file_trees == forest(app.file_trees@),
        app@.port_buf == app.port_buf@,
        app@.remote_address == app.remote_address@,
        app@.shared_folders == app.shared_folders@,
        app@.hosting <==> app.server_instance is Some,
        app@.connected <==> app.connection_instance is Some,
        app@.shared_files == app.shared_files@,
        app@.temporary == entries(app.temporary_download_header_list),
        app@.completed == entries(app.completed_download_header_list),
        app@.locations == app.download_location@,
        saved@.file_trees == forest(saved.file_trees@),
        saved@.port_buf == saved.port_buf@,
        saved@.remote_address == saved.remote_address@,
        saved@.shared_folders == saved.shared_folders@,
        saved@.shared_files == saved.shared_files@,
        saved@.completed == entries(saved.completed_download_header_list),
{
}

/// While hosting, the trees that a scan publishes are shown, and where they were not before, their
/// files are shared; everything else stays.
pub proof fn lemma_refresh_shows_what_was_found(
    app: AppView,
    trees: Vec<FileTree>,
    files: FileList,
)
    ensures
        ({
            let after = refreshed(app, Ok((trees, files)));
            &&& app.hosting ==> after.file_trees == forest(trees@)
            &&& app.hosting && app.file_trees != forest(trees@) ==> after.shared_files == files@
            &&& app.file_trees == forest(trees@) ==> after == app
            &&& after.shared_folders == app.shared_folders
            &&& after.port_buf == app.port_buf
            &&& after.remote_address == app.remote_address
            &&& after.hosting == app.hosting
            &&& after.connected == app.connected
            &&& after.temporary == app.temporary
            &&& after.completed == app.completed
            &&& after.locations == app.locations
        }),
{
}

/// A scan that failed changes nothing, neither while hosting nor when folders were selected.
pub proof fn lemma_failed_scan_changes_nothing(
    app: AppView,
    folders: Seq<std::path::PathBuf>,
    error: ScanError,
)
    ensures
        refreshed(app, Err(error)) == app,
        with_folders(app, folders, Err(error)) == app,
{
}

/// Folders that were selected and could be published are shared, with their trees and their files;
/// everything else stays.
pub proof fn lemma_selected_folders_replace_the_others(
    app: AppView,
    folders: Seq<std::path::PathBuf>,
    trees: Vec<FileTree>,
    files: FileList,
)
    ensures
        ({
            let after = with_folders(app, folders, Ok((trees, files)));
            &&& after.shared_folders == folders
            &&& after.file_trees == forest(trees@)
            &&& after.shared_files == files@
            &&& after.port_buf == app.port_buf
            &&& after.remote_address == app.remote_address
            &&& after.hosting == app.hosting
            &&& after.connected == app.connected
            &&& after.temporary == app.temporary
            &&& after.completed == app.completed
            &&& after.locations == app.locations
        }),
{
}

/// A line of the history tells what was announced of the download, and when it began.
pub proof fn lemma_history_tells_what_was_announced(row: HistoryRow, header: HeaderView)
    ensures
        row@ == history_line(header) <==> {
            &&& row.file_name@ == header.response.file_name
            &&& row.file_hash@ == header.response.file_hash
            &&& row.total_size == header.response.total_size
            &&& row.file_packet_count == header.response.packet_count
            &&& row.date@ == rfc2822_text(
                header.started.seconds(),
                header.started.nanos(),
                header.started.offset(),
            )
        },
{
}

} // verus!
