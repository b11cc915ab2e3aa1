//! Downloads from a host: asking for a file, and taking in what the host sends.

use crate::application::{
    AppView, Application, HistoryView, Scan, history_line, ids_are_distinct, initial, kept,
    refreshed, restored, with_folders,
};
use crate::dialog::{SaveDialog, can_be_saved, save_dialog, split_point};
use crate::download::{
    DownloadHeader, Entries, FilePacket, FileResponseHeader, HeaderView, PacketView, ResponseView,
    distinct_ids, get, get_mut, insert, lemma_lookup_finds_an_entry, lemma_position_of, lemma_with_entry,
    lemma_with_entry_leaves_others, lemma_without_entry, lemma_without_entry_leaves_others, lookup,
    position, swap_remove, with_entry, without_entry,
};
use crate::message::{ContentView, Message, MessageType, is_from_host};
use crate::stamp::{Stamp, rfc2822_text};
use crate::tree::{FileTree, TreeView, forest};
use vstd::prelude::*;
use vstd::string::StringExecFns;

verus! {

/// What is left to do with a packet once it has been counted: its bytes are to be appended to the
/// file at the location, if there is one, and the receipt is to be handed to
/// [`Application::settle_packet`].
pub struct Receipt {
    /// The identificator of the download.
    pub parent_id: String,
    /// The hash of the file.
    pub file_hash: String,
    /// The bytes of the packet.
    pub bytes: Vec<u8>,
    /// Where they are to be saved, if a place was chosen.
    pub location: Option<std::path::PathBuf>,
    /// Where the packet was the last one, what to tell the user.
    pub notice: Option<String>,
}

/// What is to be done after a message has come in.
pub enum Reaction {
    /// Nothing.
    Nothing,
    /// A message is to be sent to the host.
    Send(Message),
    /// Nothing: a packet came in of a download that was not announced.
    Unannounced,
    /// A packet is to be written.
    Packet(Receipt),
}

/// The download that an announcement begins.
pub open spec fn new_download(response: ResponseView, now: Stamp) -> HeaderView {
    HeaderView { response, packets: Seq::empty(), arrived_bytes: 0, started: now }
}

/// The state after a download was announced.
pub open spec fn announced(app: AppView, response: ResponseView, now: Stamp) -> AppView {
    AppView {
        temporary: with_entry(
            app.temporary,
            response.identificator,
            new_download(response, now),
        ),
        ..app
    }
}

/// Whether one state follows another by the announcement of a download, at a time that the clock
/// can tell.
pub open spec fn announced_at_some_time(
    before: AppView,
    after: AppView,
    response: ResponseView,
) -> bool {
    exists|now: Stamp|
        now.can_be_now() && after == #[trigger] announced(before, response, now)
}

/// The state after a packet was counted. A download that it completes is put into the history.
pub open spec fn counted(app: AppView, packet: PacketView) -> AppView {
    match position(app.temporary, packet.parent_id) {
        Some(i) => {
            let header = app.temporary[i].1.with_packet(packet.packet_id);
            AppView {
                temporary: app.temporary.update(i, (packet.parent_id, header)),
                completed: if header.is_complete() {
                    with_entry(app.completed, packet.parent_id, header)
                } else {
                    app.completed
                },
                ..app
            }
        },
        None => app,
    }
}

/// Whether a packet completes a download.
pub open spec fn completes(app: AppView, packet: PacketView) -> bool {
    lookup(app.temporary, packet.parent_id) matches Some(header) && header.with_packet(
        packet.packet_id,
    ).is_complete()
}

/// What the user is told of a complete download.
pub open spec fn notice_of(header: HeaderView) -> Seq<char> {
    header.response.file_name + " has finished downloading."@
}

/// Whether a receipt is the one for a packet that came in at a state: it carries the packet's
/// bytes and the place that was chosen for its file, and a notice just where the packet completes
/// the download.
pub open spec fn is_receipt_for(receipt: Receipt, app: AppView, packet: PacketView) -> bool {
    &&& receipt.parent_id@ == packet.parent_id
    &&& receipt.file_hash@ == packet.file_hash
    &&& receipt.bytes@ == packet.bytes
    &&& receipt.location == if app.locations.contains_key(packet.file_hash) {
        Some(app.locations[packet.file_hash])
    } else {
        None
    }
    &&& receipt.notice is Some <==> completes(app, packet)
    &&& receipt.notice matches Some(notice) ==> notice@ == notice_of(
        lookup(app.temporary, packet.parent_id)->0,
    )
}

/// The downloads under way after bytes of one of them were written, if any were.
pub open spec fn with_written(list: Entries, id: Seq<char>, written: Option<usize>) -> Entries {
    match (written, position(list, id)) {
        (Some(count), Some(i)) => list.update(i, (id, list[i].1.with_bytes(count))),
        _ => list,
    }
}

/// The state after the bytes of a packet were written, if they were. A complete download is no
/// longer under way, and where to save its file is forgotten.
pub open spec fn settled(
    app: AppView,
    id: Seq<char>,
    file_hash: Seq<char>,
    complete: bool,
    written: Option<usize>,
) -> AppView {
    let list = with_written(app.temporary, id, written);
    if complete {
        AppView {
            temporary: without_entry(list, id),
            locations: app.locations.remove(file_hash),
            ..app
        }
    } else {
        AppView { temporary: list, ..app }
    }
}

proof fn lemma_settling_keeps_ids_distinct(
    app: AppView,
    id: Seq<char>,
    file_hash: Seq<char>,
    complete: bool,
    written: Option<usize>,
)
    ensures
        ids_are_distinct(app) ==> ids_are_distinct(settled(app, id, file_hash, complete, written)),
{
    if ids_are_distinct(app) {
        let list = with_written(app.temporary, id, written);
        if let (Some(count), Some(header)) = (written, lookup(app.temporary, id)) {
            lemma_with_entry(app.temporary, id, header.with_bytes(count));
            assert(list == with_entry(app.temporary, id, header.with_bytes(count)));
        }
        lemma_without_entry(list, id);
    }
}

impl Application {
    /// Takes a click on a file: its hash and what the dialog to save it proposes. Without a
    /// connection a click does nothing.
    pub fn choose_file(&self, clicked: Option<(String, String)>) -> (chosen: Option<
        (String, SaveDialog),
    >)
        requires
            clicked matches Some(file) ==> self@.connected ==> can_be_saved(file.1@),
        ensures
            chosen is Some <==> self@.connected && clicked is Some,
            chosen matches Some((hash, dialog)) ==> {
                let file = clicked.unwrap();
                let name = file.1@;
                &&& hash@ == file.0@
                &&& dialog.file_name@ == name.take(split_point(name))
                &&& dialog.filter_name@ == name.skip(split_point(name))
                &&& dialog.extension@ == name.skip(split_point(name) + 1)
                &&& dialog.file_name@ + dialog.filter_name@ == name
                &&& dialog.extension@ == dialog.filter_name@.skip(1)
                &&& !dialog.file_name@.contains('.')
                &&& name.contains('.') ==> dialog.filter_name@[0] == '.'
                &&& !name.contains('.') ==> dialog.file_name@.len() == 0
            },
    {
        if self.connection_instance.is_none() {
            return None;
        }
        match clicked {
            Some((hash, name)) => Some((hash, save_dialog(name.as_str()))),
            None => None,
        }
    }

    /// Takes the place to save a file with a hash, and returns the request for it.
    pub fn request_file(&mut self, hash: String, location: std::path::PathBuf) -> (request: Message)
        ensures
            final(self)@ == (AppView {
                locations: old(self)@.locations.insert(hash@, location),
                ..old(self)@
            }),
            request@ == Some(ContentView::FileRequest(hash@)),
            request.0 matches Some(MessageType::FileRequest(requested)) && requested@ == hash@,
            final(self).download_location@ == old(self).download_location@.insert(hash@, location),
    {
        self.download_location.insert(hash.clone(), location);
        Message(Some(MessageType::FileRequest(hash)))
    }

    /// Takes the announcement of a download that begins now.
    pub fn begin_download(&mut self, response: FileResponseHeader, now: Stamp)
        ensures
            final(self)@ == announced(old(self)@, response@, now),
            distinct_ids(old(self)@.temporary),
            distinct_ids(final(self)@.temporary),
    {
        let id = response.packet_identificator.clone();
        let header = DownloadHeader {
            file_response: response,
            packet_list: Vec::new(),
            arrived_bytes: 0,
            initiated_stamp: now,
        };
        assert(header@ =~= new_download(response@, now));
        insert(&mut self.temporary_download_header_list, id, header);
    }

    /// Counts a packet. A packet of a download that was not announced changes nothing.
    pub fn receive_packet(&mut self, packet: FilePacket) -> (receipt: Option<Receipt>)
        ensures
            final(self)@ == counted(old(self)@, packet@),
            receipt is Some <==> lookup(old(self)@.temporary, packet@.parent_id) is Some,
            receipt matches Some(receipt) ==> is_receipt_for(receipt, old(self)@, packet@),
            receipt matches Some(receipt) ==> {
                let places = old(self).download_location@;
                let header = lookup(old(self)@.temporary, packet.parent_id@)->0;
                &&& receipt.parent_id@ == packet.parent_id@
                &&& receipt.file_hash@ == packet.file_hash@
                &&& receipt.bytes@ == packet.bytes@
                &&& places.contains_key(packet.file_hash@) ==> receipt.location == Some(
                    places[packet.file_hash@],
                )
                &&& !places.contains_key(packet.file_hash@) ==> receipt.location is None
                &&& receipt.notice is Some <==> header.packets.len() + 1 == promised(
                    header.response,
                )
                &&& receipt.notice matches Some(notice) ==> notice@ == header.response.file_name
                    + " has finished downloading."@
            },
            final(self).download_location@ == old(self).download_location@,
            distinct_ids(old(self)@.temporary),
            distinct_ids(final(self)@.temporary),
            ids_are_distinct(old(self)@) ==> ids_are_distinct(final(self)@),
    {
        proof {
            if let Some(header) = lookup(self@.temporary, packet.parent_id@) {
                let counted = header.with_packet(packet.packet_id);
                if distinct_ids(self@.temporary) {
                    lemma_with_entry(self@.temporary, packet.parent_id@, counted);
                }
                if distinct_ids(self@.completed) {
                    lemma_with_entry(self@.completed, packet.parent_id@, counted);
                }
            }
        }
        let mut finished: Option<(DownloadHeader, String)> = None;
        match get_mut(&mut self.temporary_download_header_list, &packet.parent_id) {
            None => {
                return None;
            },
            Some(header) => {
                header.packet_list.push(packet.packet_id);
                let announced: usize = #[verifier::truncate] (
                header.file_response.file_packet_count as usize);
                if announced == header.packet_list.len() {
                    let notice = header.file_response.file_name.clone().concat(
                        " has finished downloading.",
                    );
                    finished = Some((header.clone(), notice));
                }
            },
        }
        let notice = match finished {
            Some((header, notice)) => {
                insert(
                    &mut self.completed_download_header_list,
                    packet.parent_id.clone(),
                    header,
                );
                Some(notice)
            },
            None => None,
        };
        let location = match self.download_location.get(packet.file_hash.as_str()) {
            Some(path) => Some(path.clone()),
            None => None,
        };
        Some(
            Receipt {
                parent_id: packet.parent_id,
                file_hash: packet.file_hash,
                bytes: packet.bytes,
                location,
                notice,
            },
        )
    }

    /// How many bytes of the download with an identificator were written, if it is under way.
    pub fn bytes_written(&self, id: &String) -> (count: Option<usize>)
        ensures
            count == match lookup(self@.temporary, id@) {
                Some(header) => Some(header.arrived_bytes),
                None => None,
            },
    {
        match get(&self.temporary_download_header_list, id) {
            Some(header) => Some(header.arrived_bytes),
            None => None,
        }
    }

    /// Takes the number of bytes of a packet that were written, if its file could be opened, and
    /// is done with the packet.
    pub fn settle_packet(&mut self, receipt: Receipt, written: Option<usize>)
        requires
            written matches Some(count) ==> lookup(old(self)@.temporary, receipt.parent_id@)
                matches Some(header) ==> header.arrived_bytes + count <= usize::MAX,
        ensures
            final(self)@ == settled(
                old(self)@,
                receipt.parent_id@,
                receipt.file_hash@,
                receipt.notice is Some,
                written,
            ),
            ids_are_distinct(old(self)@) ==> ids_are_distinct(final(self)@),
    {
        proof {
            lemma_settling_keeps_ids_distinct(
                self@,
                receipt.parent_id@,
                receipt.file_hash@,
                receipt.notice is Some,
                written,
            );
        }
        if let Some(count) = written {
            if let Some(header) = get_mut(
                &mut self.temporary_download_header_list,
                &receipt.parent_id,
            ) {
                header.arrived_bytes = header.arrived_bytes + count;
            }
        }
        if receipt.notice.is_some() {
            self.download_location.remove(receipt.file_hash.as_str());
            swap_remove(&mut self.temporary_download_header_list, &receipt.parent_id);
        }
    }

    /// Takes a message of the host. An announcement begins a download at the current time; a
    /// packet is counted; trees replace those on display; a message without content is answered
    /// by asking for the trees.
    pub fn receive_message(&mut self, message: Message) -> (reaction: Reaction)
        requires
            is_from_host(message@),
        ensures
            message@ matches Some(ContentView::FileResponse(response)) ==> reaction is Nothing
                && announced_at_some_time(old(self)@, final(self)@, response),
            message@ matches Some(ContentView::FileResponse(response)) ==> {
                &&& lookup(final(self)@.temporary, response.identificator) matches Some(header)
                    && header.response == response && header.packets.len() == 0
                    && header.arrived_bytes == 0 && header.started.can_be_now()
                &&& final(self)@.completed == old(self)@.completed
                &&& final(self)@.locations == old(self)@.locations
                &&& final(self)@.file_trees == old(self)@.file_trees
            },
            message@ matches Some(ContentView::FilePacket(packet)) ==> final(self)@ == counted(
                old(self)@,
                packet,
            ) && match reaction {
                Reaction::Packet(receipt) => {
                    &&& lookup(old(self)@.temporary, packet.parent_id) is Some
                    &&& is_receipt_for(receipt, old(self)@, packet)
                },
                Reaction::Unannounced => lookup(old(self)@.temporary, packet.parent_id) is None,
                _ => false,
            },
            message@ matches Some(ContentView::FileTreeResponse(trees)) ==> reaction is Nothing
                && final(self)@ == (AppView { file_trees: trees, ..old(self)@ }),
            message@ == Some(ContentView::KeepAlive) ==> reaction is Nothing && final(self)@ == old(
                self,
            )@,
            message@ is None ==> final(self)@ == old(self)@ && (reaction matches Reaction::Send(
                request,
            ) && request@ == Some(ContentView::FileTreeRequest(Seq::empty()))),
            ids_are_distinct(old(self)@) ==> ids_are_distinct(final(self)@),
    {
        match message.0 {
            Some(MessageType::FileResponse(response)) => {
                let now = Stamp::now();
                let ghost announcement = response@;
                self.begin_download(response, now);
                assert(self@ == announced(old(self)@, announcement, now));
                assert(announced_at_some_time(old(self)@, self@, announcement));
                proof {
                    lemma_announcement_begins_a_download(
                        old(self)@,
                        announcement,
                        now,
                        announcement.identificator,
                    );
                }
                Reaction::Nothing
            },
            Some(MessageType::FilePacket(packet)) => match self.receive_packet(packet) {
                Some(receipt) => Reaction::Packet(receipt),
                None => Reaction::Unannounced,
            },
            Some(MessageType::FileTreeResponse(file_trees)) => {
                self.file_trees = file_trees;
                Reaction::Nothing
            },
            Some(_) => Reaction::Nothing,
            None => {
                let none: Vec<FileTree> = Vec::new();
                assert(forest(none@) =~= Seq::empty());
                let request = Message(Some(MessageType::FileTreeRequest(none)));
                assert(request@ == Some(ContentView::FileTreeRequest(Seq::empty())));
                Reaction::Send(request)
            },
        }
    }
}

/// The state after a packet was counted and, with what was written of its bytes, settled.
pub open spec fn after_packet(
    app: AppView,
    packet: PacketView,
    written: Option<usize>,
) -> AppView {
    if lookup(app.temporary, packet.parent_id) is Some {
        settled(
            counted(app, packet),
            packet.parent_id,
            packet.file_hash,
            completes(app, packet),
            written,
        )
    } else {
        app
    }
}

/// A download after bytes of it were written, if any were.
pub open spec fn with_bytes_written(header: HeaderView, written: Option<usize>) -> HeaderView {
    match written {
        Some(count) => header.with_bytes(count),
        None => header,
    }
}

/// Where a file is to be saved is forgotten when a packet of it completes a download, and not
/// before.
pub proof fn lemma_place_to_save_is_kept_until_complete(
    app: AppView,
    packet: PacketView,
    written: Option<usize>,
)
    ensures
        after_packet(app, packet, written).locations == if completes(app, packet) {
            app.locations.remove(packet.file_hash)
        } else {
            app.locations
        },
{
}

/// A packet that was not announced changes nothing.
pub proof fn lemma_unannounced_packet_changes_nothing(
    app: AppView,
    packet: PacketView,
    written: Option<usize>,
)
    requires
        lookup(app.temporary, packet.parent_id) is None,
    ensures
        counted(app, packet) == app,
        after_packet(app, packet, written) == app,
{
}

/// A packet that completes a download ends it: the download is no longer under way, and stands
/// in the history with the packet as its last.
pub proof fn lemma_last_packet_ends_download(
    app: AppView,
    packet: PacketView,
    written: Option<usize>,
)
    requires
        distinct_ids(app.temporary),
        distinct_ids(app.completed),
        completes(app, packet),
    ensures
        ({
            let after = after_packet(app, packet, written);
            let header = lookup(app.temporary, packet.parent_id)->0;
            &&& lookup(after.temporary, packet.parent_id) is None
            &&& lookup(after.completed, packet.parent_id) == Some(
                header.with_packet(packet.packet_id),
            )
            &&& header.with_packet(packet.packet_id).is_complete()
            &&& distinct_ids(after.temporary)
            &&& distinct_ids(after.completed)
        }),
{
    let id = packet.parent_id;
    let header = lookup(app.temporary, id)->0.with_packet(packet.packet_id);
    lemma_with_entry(app.temporary, id, header);
    lemma_with_entry(app.completed, id, header);
    let list = counted(app, packet).temporary;
    assert(list == with_entry(app.temporary, id, header));
    lemma_with_entry(list, id, with_bytes_written(header, written));
    let list = with_written(list, id, written);
    lemma_without_entry(list, id);
}

/// Any other packet of a download that is under way leaves it under way, with one packet more, and
/// leaves the history as it is.
pub proof fn lemma_other_packet_continues_download(
    app: AppView,
    packet: PacketView,
    written: Option<usize>,
)
    requires
        distinct_ids(app.temporary),
        lookup(app.temporary, packet.parent_id) is Some,
        !completes(app, packet),
    ensures
        ({
            let after = after_packet(app, packet, written);
            let header = lookup(app.temporary, packet.parent_id)->0;
            &&& lookup(after.temporary, packet.parent_id) == Some(
                with_bytes_written(header.with_packet(packet.packet_id), written),
            )
            &&& after.completed == app.completed
            &&& distinct_ids(after.temporary)
        }),
{
    let id = packet.parent_id;
    let header = lookup(app.temporary, id)->0.with_packet(packet.packet_id);
    lemma_with_entry(app.temporary, id, header);
    let list = counted(app, packet).temporary;
    assert(list == with_entry(app.temporary, id, header));
    lemma_with_entry(list, id, with_bytes_written(header, written));
}

/// A packet touches no other download, under way or complete.
pub proof fn lemma_packet_leaves_other_downloads(
    app: AppView,
    packet: PacketView,
    written: Option<usize>,
    id: Seq<char>,
)
    requires
        distinct_ids(app.temporary),
        distinct_ids(app.completed),
        id != packet.parent_id,
    ensures
        lookup(after_packet(app, packet, written).temporary, id) == lookup(app.temporary, id),
        lookup(after_packet(app, packet, written).completed, id) == lookup(app.completed, id),
{
    let own = packet.parent_id;
    if lookup(app.temporary, own) is Some {
        let header = lookup(app.temporary, own)->0.with_packet(packet.packet_id);
        lemma_with_entry(app.temporary, own, header);
        lemma_with_entry_leaves_others(app.temporary, own, header, id);
        lemma_with_entry_leaves_others(app.completed, own, header, id);
        let list = counted(app, packet).temporary;
        assert(list == with_entry(app.temporary, own, header));
        let more = with_bytes_written(header, written);
        lemma_with_entry(list, own, more);
        lemma_with_entry_leaves_others(list, own, more, id);
        lemma_without_entry_leaves_others(with_written(list, own, written), own, id);
    }
}

/// What comes in of downloads: an announcement, with the time at which it came, or a packet, with
/// what was written of its bytes.
pub enum Arrival {
    Announcement(ResponseView, Stamp),
    Packet(PacketView, Option<usize>),
}

/// The state after something came in.
pub open spec fn after_arrival(app: AppView, arrival: Arrival) -> AppView {
    match arrival {
        Arrival::Announcement(response, now) => announced(app, response, now),
        Arrival::Packet(packet, written) => after_packet(app, packet, written),
    }
}

/// The state after several things came in.
pub open spec fn after_arrivals(app: AppView, arrivals: Seq<Arrival>) -> AppView
    decreases arrivals.len(),
{
    if arrivals.len() == 0 {
        app
    } else {
        after_arrival(after_arrivals(app, arrivals.drop_last()), arrivals.last())
    }
}

/// Whether something that comes in announces the download with an identificator.
pub open spec fn announces(arrival: Arrival, id: Seq<char>) -> bool {
    arrival matches Arrival::Announcement(response, _) && response.identificator == id
}

/// Whether nothing that comes in announces the download with an identificator.
pub open spec fn none_announces(arrivals: Seq<Arrival>, id: Seq<char>) -> bool {
    forall|i: int| 0 <= i < arrivals.len() ==> !announces(#[trigger] arrivals[i], id)
}

/// Whether something that comes in is a packet of the download with an identificator.
pub open spec fn is_packet_of(arrival: Arrival, id: Seq<char>) -> bool {
    arrival matches Arrival::Packet(packet, _) && packet.parent_id == id
}

/// The numbers of the packets of the download with an identificator, in order of arrival.
pub open spec fn packet_ids(arrivals: Seq<Arrival>, id: Seq<char>) -> Seq<u64>
    decreases arrivals.len(),
{
    if arrivals.len() == 0 {
        Seq::empty()
    } else {
        match arrivals.last() {
            Arrival::Packet(packet, _) if packet.parent_id == id => packet_ids(
                arrivals.drop_last(),
                id,
            ).push(packet.packet_id),
            _ => packet_ids(arrivals.drop_last(), id),
        }
    }
}

/// The bytes that were written of the packets of the download with an identificator.
pub open spec fn total_written(arrivals: Seq<Arrival>, id: Seq<char>) -> nat
    decreases arrivals.len(),
{
    if arrivals.len() == 0 {
        0
    } else {
        match arrivals.last() {
            Arrival::Packet(packet, Some(count)) if packet.parent_id == id => total_written(
                arrivals.drop_last(),
                id,
            ) + count as nat,
            _ => total_written(arrivals.drop_last(), id),
        }
    }
}

/// The number of packets that an announcement promises.
pub open spec fn promised(response: ResponseView) -> nat {
    (#[verifier::truncate] (response.packet_count as usize)) as nat
}

proof fn lemma_arrival_keeps_ids_distinct(app: AppView, arrival: Arrival)
    requires
        distinct_ids(app.temporary),
        distinct_ids(app.completed),
    ensures
        distinct_ids(after_arrival(app, arrival).temporary),
        distinct_ids(after_arrival(app, arrival).completed),
{
    match arrival {
        Arrival::Announcement(response, now) => {
            lemma_with_entry(app.temporary, response.identificator, new_download(response, now));
        },
        Arrival::Packet(packet, written) => {
            if completes(app, packet) {
                lemma_last_packet_ends_download(app, packet, written);
            } else if lookup(app.temporary, packet.parent_id) is Some {
                lemma_other_packet_continues_download(app, packet, written);
            }
        },
    }
}

/// What comes in of other downloads leaves a download as it is, under way or complete.
pub proof fn lemma_arrival_leaves_other_downloads(app: AppView, arrival: Arrival, id: Seq<char>)
    requires
        distinct_ids(app.temporary),
        distinct_ids(app.completed),
        !announces(arrival, id),
        !is_packet_of(arrival, id),
    ensures
        lookup(after_arrival(app, arrival).temporary, id) == lookup(app.temporary, id),
        lookup(after_arrival(app, arrival).completed, id) == lookup(app.completed, id),
{
    match arrival {
        Arrival::Announcement(response, now) => {
            lemma_with_entry_leaves_others(
                app.temporary,
                response.identificator,
                new_download(response, now),
                id,
            );
        },
        Arrival::Packet(packet, written) => {
            lemma_packet_leaves_other_downloads(app, packet, written, id);
        },
    }
}

/// As long as fewer packets of a download have come in than were announced, if any were, it is under
/// way, with
/// the numbers of its packets in order of arrival and the count of the bytes that were written of
/// them, whatever else comes in between; and the history holds of it what it held before.
pub proof fn lemma_download_is_under_way(
    app: AppView,
    response: ResponseView,
    now: Stamp,
    arrivals: Seq<Arrival>,
)
    requires
        distinct_ids(app.temporary),
        distinct_ids(app.completed),
        none_announces(arrivals, response.identificator),
        packet_ids(arrivals, response.identificator).len() < promised(response) || packet_ids(
            arrivals,
            response.identificator,
        ).len() == 0 || promised(response) == 0,
        total_written(arrivals, response.identificator) <= usize::MAX,
    ensures
        ({
            let id = response.identificator;
            let after = after_arrivals(announced(app, response, now), arrivals);
            &&& lookup(after.temporary, id) matches Some(header) && header.response == response
                && header.packets == packet_ids(arrivals, id) && header.arrived_bytes
                == total_written(arrivals, id) && header.started == now
            &&& lookup(after.completed, id) == lookup(app.completed, id)
            &&& distinct_ids(after.temporary)
            &&& distinct_ids(after.completed)
        }),
    decreases arrivals.len(),
{
    let id = response.identificator;
    let start = announced(app, response, now);
    if arrivals.len() == 0 {
        lemma_with_entry(app.temporary, id, new_download(response, now));
    } else {
        let front = arrivals.drop_last();
        let last = arrivals.last();
        assert(last == arrivals[arrivals.len() - 1]);
        assert(none_announces(front, id)) by {
            assert forall|i: int| 0 <= i < front.len() implies !announces(
                #[trigger] front[i],
                id,
            ) by {
                assert(front[i] == arrivals[i]);
            }
        }
        lemma_download_is_under_way(app, response, now, front);
        let before = after_arrivals(start, front);
        lemma_arrival_keeps_ids_distinct(before, last);
        if is_packet_of(last, id) {
            if let Arrival::Packet(packet, written) = last {
                let header = lookup(before.temporary, id)->0;
                assert(header.with_packet(packet.packet_id).packets == packet_ids(arrivals, id));
                lemma_other_packet_continues_download(before, packet, written);
            }
        } else {
            lemma_arrival_leaves_other_downloads(before, last, id);
        }
    }
}

/// The packet with which as many have come in as were announced ends the download, whatever else
/// has come in between: it is no longer under way, and stands in the history with the numbers of all
/// its packets in order of arrival. The count of bytes in the history is the one from before the
/// last packet was written.
pub proof fn lemma_download_comes_to_its_end(
    app: AppView,
    response: ResponseView,
    now: Stamp,
    arrivals: Seq<Arrival>,
)
    requires
        distinct_ids(app.temporary),
        distinct_ids(app.completed),
        none_announces(arrivals, response.identificator),
        arrivals.len() > 0,
        is_packet_of(arrivals.last(), response.identificator),
        packet_ids(arrivals, response.identificator).len() == promised(response),
        total_written(arrivals.drop_last(), response.identificator) <= usize::MAX,
    ensures
        ({
            let id = response.identificator;
            let after = after_arrivals(announced(app, response, now), arrivals);
            &&& lookup(after.temporary, id) is None
            &&& lookup(after.completed, id) matches Some(header) && header.response == response
                && header.packets == packet_ids(arrivals, id) && header.arrived_bytes
                == total_written(arrivals.drop_last(), id) && header.started == now
                && header.is_complete()
            &&& distinct_ids(after.temporary)
            &&& distinct_ids(after.completed)
        }),
{
    let id = response.identificator;
    let front = arrivals.drop_last();
    assert(none_announces(front, id)) by {
        assert forall|i: int| 0 <= i < front.len() implies !announces(#[trigger] front[i], id) by {
            assert(front[i] == arrivals[i]);
        }
    }
    lemma_download_is_under_way(app, response, now, front);
    let before = after_arrivals(announced(app, response, now), front);
    if let Arrival::Packet(packet, written) = arrivals.last() {
        let header = lookup(before.temporary, id)->0;
        assert(header.with_packet(packet.packet_id).packets == packet_ids(arrivals, id));
        lemma_last_packet_ends_download(before, packet, written);
    }
}

/// A download that is not under way stays so, and the history keeps what it holds of it, until it is
/// announced again: packets that come late change nothing.
pub proof fn lemma_ended_download_stays_as_it_is(
    app: AppView,
    id: Seq<char>,
    arrivals: Seq<Arrival>,
)
    requires
        distinct_ids(app.temporary),
        distinct_ids(app.completed),
        lookup(app.temporary, id) is None,
        none_announces(arrivals, id),
    ensures
        lookup(after_arrivals(app, arrivals).temporary, id) is None,
        lookup(after_arrivals(app, arrivals).completed, id) == lookup(app.completed, id),
        distinct_ids(after_arrivals(app, arrivals).temporary),
        distinct_ids(after_arrivals(app, arrivals).completed),
    decreases arrivals.len(),
{
    if arrivals.len() > 0 {
        let front = arrivals.drop_last();
        let last = arrivals.last();
        assert(last == arrivals[arrivals.len() - 1]);
        assert forall|i: int| 0 <= i < front.len() implies !announces(#[trigger] front[i], id) by {
            assert(front[i] == arrivals[i]);
        }
        lemma_ended_download_stays_as_it_is(app, id, front);
        let before = after_arrivals(app, front);
        lemma_arrival_keeps_ids_distinct(before, last);
        if !is_packet_of(last, id) {
            lemma_arrival_leaves_other_downloads(before, last, id);
        }
    }
}

/// A download that announces no packets never completes: its first packet is already one too many.
pub proof fn lemma_download_without_packets_never_completes(header: HeaderView, packet_id: u64)
    requires
        header.response.packet_count == 0,
    ensures
        !header.with_packet(packet_id).is_complete(),
{
}

/// Whether a list of downloads is in order: no identificator stands in it twice, and each is that
/// of its download.
pub open spec fn is_in_order(list: Entries) -> bool {
    &&& distinct_ids(list)
    &&& forall|i: int|
        0 <= i < list.len() ==> (#[trigger] list[i]).1.response.identificator == list[i].0
}

/// Whether fewer packets of a download have come in than were announced, if any were.
pub open spec fn is_short_of_packets(header: HeaderView) -> bool {
    promised(header.response) > 0 ==> header.packets.len() < promised(header.response)
}

/// Whether the packets of the downloads of a state are in order: of those under way fewer have come
/// in than were announced, if any were, and of those in the history as many as were announced.
pub open spec fn packets_in_order(app: AppView) -> bool {
    &&& forall|i: int|
        0 <= i < app.temporary.len() ==> is_short_of_packets((#[trigger] app.temporary[i]).1)
    &&& forall|i: int|
        0 <= i < app.completed.len() ==> (#[trigger] app.completed[i]).1.packets.len() == promised(
            app.completed[i].1.response,
        )
}

/// Whether the downloads of a state are in order, with their identificators and their packets.
pub open spec fn downloads_in_order(app: AppView) -> bool {
    is_in_order(app.temporary) && is_in_order(app.completed) && packets_in_order(app)
}

proof fn lemma_with_entry_in_order(list: Entries, header: HeaderView)
    requires
        is_in_order(list),
    ensures
        is_in_order(with_entry(list, header.response.identificator, header)),
{
    let id = header.response.identificator;
    lemma_with_entry(list, id, header);
    let after = with_entry(list, id, header);
    assert forall|i: int| 0 <= i < after.len() implies (
    #[trigger] after[i]).1.response.identificator == after[i].0 by {
        if after[i] != (id, header) {
            assert(after[i] == list[i]);
        }
    }
}

/// The downloads are in order at the start, and again after a restart.
pub proof fn lemma_downloads_start_in_order(app: AppView)
    ensures
        downloads_in_order(initial()),
        downloads_in_order(app) ==> downloads_in_order(restored(kept(app))),
{
}

proof fn lemma_announcement_keeps_packets_in_order(
    app: AppView,
    response: ResponseView,
    now: Stamp,
)
    requires
        packets_in_order(app),
    ensures
        packets_in_order(announced(app, response, now)),
{
    let header = new_download(response, now);
    let after = announced(app, response, now).temporary;
    assert forall|i: int| 0 <= i < after.len() implies is_short_of_packets(
        (#[trigger] after[i]).1,
    ) by {
        if after[i].1 != header {
            assert(after[i] == app.temporary[i]);
        }
    }
}

proof fn lemma_packet_keeps_packets_in_order(
    app: AppView,
    packet: PacketView,
    written: Option<usize>,
)
    requires
        ids_are_distinct(app),
        packets_in_order(app),
    ensures
        packets_in_order(after_packet(app, packet, written)),
{
    let id = packet.parent_id;
    let after = after_packet(app, packet, written);
    if let Some(i) = position(app.temporary, id) {
        assert(app.temporary[i].0 == id);
        let header = app.temporary[i].1.with_packet(packet.packet_id);
        let more = with_bytes_written(header, written);
        lemma_with_entry(app.temporary, id, header);
        let list = counted(app, packet).temporary;
        assert(list == with_entry(app.temporary, id, header));
        lemma_position_of(list, id, i);
        lemma_with_entry(list, id, more);
        let list = with_written(list, id, written);
        assert(forall|j: int| 0 <= j < list.len() && j != i ==> list[j] == app.temporary[j]);
        assert(list[i] == (id, more));
        lemma_position_of(list, id, i);
        assert forall|j: int| 0 <= j < after.temporary.len() implies is_short_of_packets(
            (#[trigger] after.temporary[j]).1,
        ) by {
            if header.is_complete() {
                let k = if j == i {
                    list.len() - 1
                } else {
                    j
                };
                assert(after.temporary[j] == list[k]);
                assert(k != i);
            } else {
                assert(after.temporary[j] == list[j]);
                assert(is_short_of_packets(app.temporary[j].1));
            }
        }
        assert forall|j: int| 0 <= j < after.completed.len() implies (
        #[trigger] after.completed[j]).1.packets.len() == promised(
            after.completed[j].1.response,
        ) by {
            if after.completed[j].1 != header {
                assert(after.completed[j] == app.completed[j]);
            }
        }
    }
}

/// An announcement leaves the downloads in order.
pub proof fn lemma_announcement_keeps_order(app: AppView, response: ResponseView, now: Stamp)
    requires
        downloads_in_order(app),
    ensures
        downloads_in_order(announced(app, response, now)),
{
    lemma_with_entry_in_order(app.temporary, new_download(response, now));
    lemma_announcement_keeps_packets_in_order(app, response, now);
}

/// A packet, once it is settled, leaves the downloads in order.
pub proof fn lemma_packet_keeps_order(app: AppView, packet: PacketView, written: Option<usize>)
    requires
        downloads_in_order(app),
    ensures
        downloads_in_order(after_packet(app, packet, written)),
{
    lemma_packet_keeps_packets_in_order(app, packet, written);
    let id = packet.parent_id;
    let after = after_packet(app, packet, written);
    if let Some(i) = position(app.temporary, id) {
        assert(app.temporary[i].0 == id);
        let header = app.temporary[i].1.with_packet(packet.packet_id);
        let more = with_bytes_written(header, written);
        assert(header.response.identificator == id && more.response.identificator == id);
        lemma_with_entry_in_order(app.temporary, header);
        let list = counted(app, packet).temporary;
        assert(list == with_entry(app.temporary, id, header));
        lemma_with_entry_in_order(list, more);
        lemma_with_entry_in_order(app.completed, header);
        lemma_position_of(list, id, i);
        let list = with_written(list, id, written);
        lemma_without_entry(list, id);
        if header.is_complete() {
            lemma_position_of(list, id, i);
            assert forall|j: int| 0 <= j < after.temporary.len() implies (
            #[trigger] after.temporary[j]).1.response.identificator == after.temporary[j].0 by {
                let k = if j == i {
                    list.len() - 1
                } else {
                    j
                };
                assert(after.temporary[j] == list[k]);
            }
        }
    }
}

/// Whether every identificator of one list stands in another.
pub open spec fn keeps_ids(before: Entries, after: Entries) -> bool {
    forall|id: Seq<char>| #[trigger] lookup(before, id) is Some ==> lookup(after, id) is Some
}

/// No download leaves the history, whatever comes in.
pub proof fn lemma_history_keeps_its_downloads(app: AppView, arrival: Arrival)
    requires
        ids_are_distinct(app),
    ensures
        keeps_ids(app.completed, after_arrival(app, arrival).completed),
{
    let after = after_arrival(app, arrival);
    if let Arrival::Packet(packet, written) = arrival {
        if completes(app, packet) {
            let own = packet.parent_id;
            let header = lookup(app.temporary, own)->0.with_packet(packet.packet_id);
            assert(after.completed == with_entry(app.completed, own, header));
            assert forall|id: Seq<char>| #[trigger]
                lookup(app.completed, id) is Some implies lookup(after.completed, id) is Some by {
                lemma_with_entry(app.completed, own, header);
                if id != own {
                    lemma_with_entry_leaves_others(app.completed, own, header, id);
                }
            }
        }
    }
}

/// What can happen to the application.
pub enum Step {
    /// Texts are typed in: the port and the address.
    Type(Seq<char>, Seq<char>),
    /// The shared folders are scanned again.
    Refresh(Scan),
    /// Folders are selected and scanned.
    Select(Seq<std::path::PathBuf>, Scan),
    /// Hosting is started, or could not be.
    Host(bool),
    /// Hosting is ended.
    ShutDown,
    /// A connection comes about, with the trees of its host.
    Connect(Seq<TreeView>),
    /// The connection is ended.
    Disconnect,
    /// A file is requested, with the place to save it.
    Request(Seq<char>, std::path::PathBuf),
    /// A message of the host comes in at a time; of a packet, so many bytes are written.
    Message(Option<ContentView>, Stamp, Option<usize>),
}

/// The state after a message of the host was taken in at a time and, if it is a packet, settled with
/// what was written of its bytes.
pub open spec fn after_message(
    app: AppView,
    message: Option<ContentView>,
    now: Stamp,
    written: Option<usize>,
) -> AppView {
    match message {
        Some(ContentView::FileResponse(response)) => announced(app, response, now),
        Some(ContentView::FilePacket(packet)) => after_packet(app, packet, written),
        Some(ContentView::FileTreeResponse(trees)) => AppView { file_trees: trees, ..app },
        _ => app,
    }
}

/// The state after something happened.
pub open spec fn after_step(app: AppView, step: Step) -> AppView {
    match step {
        Step::Type(port_buf, remote_address) => AppView { port_buf, remote_address, ..app },
        Step::Refresh(scan) => refreshed(app, scan),
        Step::Select(folders, scan) => with_folders(app, folders, scan),
        Step::Host(started) => AppView { hosting: started || app.hosting, ..app },
        Step::ShutDown => AppView { hosting: false, ..app },
        Step::Connect(trees) => AppView { file_trees: trees, connected: true, ..app },
        Step::Disconnect => AppView { connected: false, ..app },
        Step::Request(hash, location) => AppView {
            locations: app.locations.insert(hash, location),
            ..app
        },
        Step::Message(message, now, written) => after_message(app, message, now, written),
    }
}

/// The state after several things happened.
pub open spec fn after_steps(app: AppView, steps: Seq<Step>) -> AppView
    decreases steps.len(),
{
    if steps.len() == 0 {
        app
    } else {
        after_step(after_steps(app, steps.drop_last()), steps.last())
    }
}

/// Whatever happens, the packets of the downloads stay in order, and so do their identificators; no
/// download leaves the history.
pub proof fn lemma_step_keeps_downloads_in_order(app: AppView, step: Step)
    requires
        ids_are_distinct(app),
        packets_in_order(app),
    ensures
        ids_are_distinct(after_step(app, step)),
        packets_in_order(after_step(app, step)),
        downloads_in_order(app) ==> downloads_in_order(after_step(app, step)),
        keeps_ids(app.completed, after_step(app, step).completed),
{
    match step {
        Step::Message(Some(ContentView::FileResponse(response)), now, _) => {
            lemma_arrival_keeps_ids_distinct(app, Arrival::Announcement(response, now));
            lemma_announcement_keeps_packets_in_order(app, response, now);
            if downloads_in_order(app) {
                lemma_announcement_keeps_order(app, response, now);
            }
        },
        Step::Message(Some(ContentView::FilePacket(packet)), _, written) => {
            lemma_arrival_keeps_ids_distinct(app, Arrival::Packet(packet, written));
            lemma_packet_keeps_packets_in_order(app, packet, written);
            if downloads_in_order(app) {
                lemma_packet_keeps_order(app, packet, written);
            }
            lemma_history_keeps_its_downloads(app, Arrival::Packet(packet, written));
        },
        _ => {},
    }
}

/// From any state whose downloads are in order, so from the start and from every restart, they stay
/// in order through whatever happens, and no download leaves the history.
pub proof fn lemma_run_keeps_downloads_in_order(app: AppView, steps: Seq<Step>)
    requires
        ids_are_distinct(app),
        packets_in_order(app),
    ensures
        ids_are_distinct(after_steps(app, steps)),
        packets_in_order(after_steps(app, steps)),
        downloads_in_order(app) ==> downloads_in_order(after_steps(app, steps)),
        keeps_ids(app.completed, after_steps(app, steps).completed),
    decreases steps.len(),
{
    if steps.len() > 0 {
        let before = after_steps(app, steps.drop_last());
        let after = after_steps(app, steps);
        lemma_run_keeps_downloads_in_order(app, steps.drop_last());
        lemma_step_keeps_downloads_in_order(before, steps.last());
        assert forall|id: Seq<char>| #[trigger]
            lookup(app.completed, id) is Some implies lookup(after.completed, id) is Some by {
            assert(lookup(before.completed, id) is Some);
        }
    }
}

/// A receipt is for its packet: it carries the bytes of the packet, and the place that is remembered
/// under the hash of its file, whichever packets came before. The user is told just when the packet
/// is the last one that was announced, by the name of the file.
pub proof fn lemma_receipt_is_for_its_packet(receipt: Receipt, app: AppView, packet: PacketView)
    requires
        lookup(app.temporary, packet.parent_id) is Some,
    ensures
        is_receipt_for(receipt, app, packet) <==> {
            let header = lookup(app.temporary, packet.parent_id)->0;
            &&& receipt.parent_id@ == packet.parent_id
            &&& receipt.file_hash@ == packet.file_hash
            &&& receipt.bytes@ == packet.bytes
            &&& app.locations.contains_key(packet.file_hash) ==> receipt.location == Some(
                app.locations[packet.file_hash],
            )
            &&& !app.locations.contains_key(packet.file_hash) ==> receipt.location is None
            &&& receipt.notice is Some <==> header.packets.len() + 1 == promised(header.response)
            &&& receipt.notice matches Some(notice) ==> notice@ == header.response.file_name
                + " has finished downloading."@
        },
{
}

/// An announcement promises the packets that it counts. (The count is taken as a `usize`.)
pub proof fn lemma_promise_is_the_count(response: ResponseView)
    ensures
        response.packet_count <= usize::MAX ==> promised(response) == response.packet_count,
{
}

/// A packet completes a download just where the download is under way and lacks one packet.
pub proof fn lemma_last_missing_packet_completes(app: AppView, packet: PacketView)
    ensures
        completes(app, packet) <==> match lookup(app.temporary, packet.parent_id) {
            Some(header) => header.packets.len() + 1 == promised(header.response),
            None => false,
        },
{
}

/// An announcement begins a download with nothing in it yet, and changes nothing else.
pub proof fn lemma_announcement_begins_a_download(
    app: AppView,
    response: ResponseView,
    now: Stamp,
    other: Seq<char>,
)
    requires
        distinct_ids(app.temporary),
    ensures
        ({
            let after = announced(app, response, now);
            &&& lookup(after.temporary, response.identificator) matches Some(header)
                && header.response == response && header.packets.len() == 0
                && header.arrived_bytes == 0 && header.started == now
            &&& other != response.identificator ==> lookup(after.temporary, other) == lookup(
                app.temporary,
                other,
            )
            &&& after.completed == app.completed
            &&& after.locations == app.locations
        }),
{
    let header = new_download(response, now);
    lemma_with_entry(app.temporary, response.identificator, header);
    if other != response.identificator {
        lemma_with_entry_leaves_others(app.temporary, response.identificator, header, other);
    }
}

/// What comes in of downloads touches neither what is shared or shown, nor what was typed in, nor
/// whether the application hosts or is connected; and no place to save but that of the file whose
/// last packet came in.
pub proof fn lemma_arrival_touches_downloads_alone(app: AppView, arrival: Arrival, hash: Seq<char>)
    ensures
        ({
            let after = after_arrival(app, arrival);
            &&& after.file_trees == app.file_trees
            &&& after.port_buf == app.port_buf
            &&& after.remote_address == app.remote_address
            &&& after.shared_folders == app.shared_folders
            &&& after.hosting == app.hosting
            &&& after.connected == app.connected
            &&& after.shared_files == app.shared_files
            &&& !carries(arrival, hash) ==> (after.locations.contains_key(hash)
                <==> app.locations.contains_key(hash)) && (app.locations.contains_key(hash)
                ==> after.locations[hash] == app.locations[hash])
        }),
{
}

/// Whether something that comes in is a packet of the file with a hash.
pub open spec fn carries(arrival: Arrival, hash: Seq<char>) -> bool {
    arrival matches Arrival::Packet(packet, _) && packet.file_hash == hash
}

/// Whether every packet of the file with a hash that comes in is one of the download with an
/// identificator.
pub open spec fn file_comes_in_one_download(
    arrivals: Seq<Arrival>,
    hash: Seq<char>,
    id: Seq<char>,
) -> bool {
    forall|i: int|
        0 <= i < arrivals.len() && carries(#[trigger] arrivals[i], hash) ==> is_packet_of(
            arrivals[i],
            id,
        )
}

proof fn lemma_counts_of_prefix(arrivals: Seq<Arrival>, n: int, id: Seq<char>)
    requires
        0 <= n <= arrivals.len(),
    ensures
        packet_ids(arrivals.take(n), id).len() <= packet_ids(arrivals, id).len(),
        total_written(arrivals.take(n), id) <= total_written(arrivals, id),
    decreases arrivals.len(),
{
    if n == arrivals.len() {
        assert(arrivals.take(n) =~= arrivals);
    } else {
        assert(arrivals.drop_last().take(n) =~= arrivals.take(n));
        lemma_counts_of_prefix(arrivals.drop_last(), n, id);
    }
}

/// The place to save a file that was remembered when its download was announced is remembered as
/// long as the download is under way, where the packets of the file come in that download alone.
pub proof fn lemma_place_is_remembered_while_under_way(
    app: AppView,
    response: ResponseView,
    now: Stamp,
    arrivals: Seq<Arrival>,
    hash: Seq<char>,
)
    requires
        distinct_ids(app.temporary),
        distinct_ids(app.completed),
        none_announces(arrivals, response.identificator),
        packet_ids(arrivals, response.identificator).len() < promised(response) || packet_ids(
            arrivals,
            response.identificator,
        ).len() == 0 || promised(response) == 0,
        total_written(arrivals, response.identificator) <= usize::MAX,
        file_comes_in_one_download(arrivals, hash, response.identificator),
        app.locations.contains_key(hash),
    ensures
        ({
            let after = after_arrivals(announced(app, response, now), arrivals);
            after.locations.contains_key(hash) && after.locations[hash] == app.locations[hash]
        }),
    decreases arrivals.len(),
{
    let id = response.identificator;
    if arrivals.len() > 0 {
        let n = arrivals.len() - 1;
        let front = arrivals.drop_last();
        let last = arrivals.last();
        assert(last == arrivals[n]);
        assert(front =~= arrivals.take(n));
        lemma_counts_of_prefix(arrivals, n, id);
        assert forall|i: int| 0 <= i < front.len() implies !announces(#[trigger] front[i], id) && (
        carries(front[i], hash) ==> is_packet_of(front[i], id)) by {
            assert(front[i] == arrivals[i]);
        }
        lemma_place_is_remembered_while_under_way(app, response, now, front, hash);
        let before = after_arrivals(announced(app, response, now), front);
        if is_packet_of(last, id) {
            lemma_download_is_under_way(app, response, now, front);
            if let Arrival::Packet(packet, written) = last {
                let header = lookup(before.temporary, id)->0;
                assert(header.with_packet(packet.packet_id).packets == packet_ids(arrivals, id));
                assert(!completes(before, packet));
            }
        } else {
            lemma_arrival_touches_downloads_alone(before, last, hash);
        }
    }
}

/// The bytes of the packets of a download, one after the other, in order of arrival.
pub open spec fn packet_bytes(arrivals: Seq<Arrival>, id: Seq<char>) -> Seq<u8>
    decreases arrivals.len(),
{
    if arrivals.len() == 0 {
        Seq::empty()
    } else {
        match arrivals.last() {
            Arrival::Packet(packet, _) if packet.parent_id == id => packet_bytes(
                arrivals.drop_last(),
                id,
            ) + packet.bytes,
            _ => packet_bytes(arrivals.drop_last(), id),
        }
    }
}

/// The bytes that receipts of the packets of a download have saved at a place, one after the other.
/// There is a receipt for each thing that comes in; those that are for no packet of the download do
/// not count.
pub open spec fn saved_bytes(
    arrivals: Seq<Arrival>,
    receipts: Seq<Receipt>,
    id: Seq<char>,
    place: std::path::PathBuf,
) -> Seq<u8>
    decreases arrivals.len(),
{
    if arrivals.len() == 0 {
        Seq::empty()
    } else {
        let before = saved_bytes(arrivals.drop_last(), receipts.drop_last(), id, place);
        if is_packet_of(arrivals.last(), id) && receipts.last().location == Some(place) {
            before + receipts.last().bytes@
        } else {
            before
        }
    }
}

proof fn lemma_saved_bytes_are_those_of_packets(
    arrivals: Seq<Arrival>,
    receipts: Seq<Receipt>,
    id: Seq<char>,
    place: std::path::PathBuf,
)
    requires
        receipts.len() == arrivals.len(),
        forall|i: int|
            0 <= i < arrivals.len() && is_packet_of(#[trigger] arrivals[i], id)
                ==> receipts[i].location == Some(place) && receipts[i].bytes@
                == arrivals[i]->Packet_0.bytes,
    ensures
        saved_bytes(arrivals, receipts, id, place) == packet_bytes(arrivals, id),
    decreases arrivals.len(),
{
    if arrivals.len() > 0 {
        let n = arrivals.len() - 1;
        let front = arrivals.drop_last();
        let before = receipts.drop_last();
        assert forall|i: int| 0 <= i < front.len() && is_packet_of(
            #[trigger] front[i],
            id,
        ) implies before[i].location == Some(place) && before[i].bytes@
            == front[i]->Packet_0.bytes by {
            assert(front[i] == arrivals[i]);
            assert(before[i] == receipts[i]);
        }
        lemma_saved_bytes_are_those_of_packets(front, before, id, place);
        assert(arrivals.last() == arrivals[n]);
        assert(receipts.last() == receipts[n]);
    }
}

/// Whether receipts are those for the packets of a download that came in after a state, each at the
/// state in which it came in.
pub open spec fn are_receipts_of(
    receipts: Seq<Receipt>,
    start: AppView,
    arrivals: Seq<Arrival>,
    id: Seq<char>,
) -> bool {
    &&& receipts.len() == arrivals.len()
    &&& forall|i: int|
        0 <= i < arrivals.len() && is_packet_of(#[trigger] arrivals[i], id) ==> is_receipt_for(
            receipts[i],
            after_arrivals(start, arrivals.take(i)),
            arrivals[i]->Packet_0,
        )
}

/// What is saved of a file is the file: where a place is remembered for the file when it is
/// announced, the bytes that the receipts of its packets save there, up to and with the last packet,
/// are the bytes of all its packets in order of arrival, whatever else comes in between.
pub proof fn lemma_every_packet_is_saved(
    app: AppView,
    response: ResponseView,
    now: Stamp,
    arrivals: Seq<Arrival>,
    receipts: Seq<Receipt>,
)
    requires
        distinct_ids(app.temporary),
        distinct_ids(app.completed),
        none_announces(arrivals, response.identificator),
        packet_ids(arrivals, response.identificator).len() <= promised(response) || promised(
            response,
        ) == 0,
        total_written(arrivals, response.identificator) <= usize::MAX,
        file_comes_in_one_download(arrivals, response.file_hash, response.identificator),
        forall|i: int|
            0 <= i < arrivals.len() && is_packet_of(#[trigger] arrivals[i], response.identificator)
                ==> carries(arrivals[i], response.file_hash),
        app.locations.contains_key(response.file_hash),
        are_receipts_of(
            receipts,
            announced(app, response, now),
            arrivals,
            response.identificator,
        ),
    ensures
        forall|i: int|
            0 <= i < arrivals.len() && is_packet_of(#[trigger] arrivals[i], response.identificator)
                ==> receipts[i].location == Some(app.locations[response.file_hash])
                && receipts[i].bytes@ == arrivals[i]->Packet_0.bytes,
        saved_bytes(
            arrivals,
            receipts,
            response.identificator,
            app.locations[response.file_hash],
        ) == packet_bytes(arrivals, response.identificator),
{
    let id = response.identificator;
    let hash = response.file_hash;
    let place = app.locations[hash];
    assert forall|i: int| 0 <= i < arrivals.len() && is_packet_of(
        #[trigger] arrivals[i],
        id,
    ) implies receipts[i].location == Some(place) && receipts[i].bytes@
        == arrivals[i]->Packet_0.bytes by {
        let before = arrivals.take(i);
        let with_it = arrivals.take(i + 1);
        assert(with_it.drop_last() =~= before);
        assert(with_it.last() == arrivals[i]);
        lemma_counts_of_prefix(arrivals, i, id);
        lemma_counts_of_prefix(arrivals, i + 1, id);
        assert forall|j: int| 0 <= j < before.len() implies !announces(
            #[trigger] before[j],
            id,
        ) && (carries(before[j], hash) ==> is_packet_of(before[j], id)) by {
            assert(before[j] == arrivals[j]);
        }
        lemma_place_is_remembered_while_under_way(app, response, now, before, hash);
        assert(is_receipt_for(
            receipts[i],
            after_arrivals(announced(app, response, now), before),
            arrivals[i]->Packet_0,
        ));
    }
    lemma_saved_bytes_are_those_of_packets(arrivals, receipts, id, place);
}

/// A download that has come to its end has a line in the history, which tells what the host
/// announced of it and when it began.
pub proof fn lemma_ended_download_is_told_as_announced(
    app: AppView,
    response: ResponseView,
    now: Stamp,
    arrivals: Seq<Arrival>,
)
    requires
        distinct_ids(app.temporary),
        distinct_ids(app.completed),
        none_announces(arrivals, response.identificator),
        arrivals.len() > 0,
        is_packet_of(arrivals.last(), response.identificator),
        packet_ids(arrivals, response.identificator).len() == promised(response),
        total_written(arrivals.drop_last(), response.identificator) <= usize::MAX,
    ensures
        ({
            let history = after_arrivals(announced(app, response, now), arrivals).completed;
            exists|line: int|
                0 <= line < history.len() && is_line_of(
                    history_line((#[trigger] history[line]).1),
                    response,
                    now,
                )
        }),
{
    lemma_download_comes_to_its_end(app, response, now, arrivals);
    let history = after_arrivals(announced(app, response, now), arrivals).completed;
    let id = response.identificator;
    lemma_lookup_finds_an_entry(history, id);
    let header = lookup(history, id)->0;
    let line = choose|line: int| 0 <= line < history.len() && #[trigger] history[line] == (id, header);
    assert(is_line_of(history_line(history[line].1), response, now));
}

/// Whether a line of the history is the one for a download that was announced at a time.
pub open spec fn is_line_of(line: HistoryView, response: ResponseView, now: Stamp) -> bool {
    &&& line.file_name == response.file_name
    &&& line.file_hash == response.file_hash
    &&& line.total_size == response.total_size
    &&& line.packet_count == response.packet_count
    &&& line.date == rfc2822_text(now.seconds(), now.nanos(), now.offset())
}

} // verus!
