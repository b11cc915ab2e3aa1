//! Downloads: what the host announces, what has come in of each, and the lists that hold them.

use crate::stamp::Stamp;
use indexmap::IndexMap;
use vstd::prelude::*;

verus! {

/// What the host answers to a request for a file, before it sends the packets.
pub struct FileResponseHeader {
    pub packet_identificator: String,
    pub file_name: String,
    pub file_hash: String,
    pub total_size: u64,
    pub file_packet_count: u64,
}

/// One piece of a file. `parent_id` is the identificator of the announcement it belongs to.
pub struct FilePacket {
    pub parent_id: String,
    pub packet_id: u64,
    pub file_hash: String,
    pub bytes: Vec<u8>,
}

/// A download: its announcement, the packets that have come in, in order of arrival, the bytes of
/// them that were written, and when it began.
pub struct DownloadHeader {
    pub file_response: FileResponseHeader,
    pub packet_list: Vec<u64>,
    pub arrived_bytes: usize,
    pub initiated_stamp: Stamp,
}

/// The mathematical value of a [`FileResponseHeader`].
#[verifier::ext_equal]
pub struct ResponseView {
    pub identificator: Seq<char>,
    pub file_name: Seq<char>,
    pub file_hash: Seq<char>,
    pub total_size: u64,
    pub packet_count: u64,
}

/// The mathematical value of a [`FilePacket`].
#[verifier::ext_equal]
pub struct PacketView {
    pub parent_id: Seq<char>,
    pub packet_id: u64,
    pub file_hash: Seq<char>,
    pub bytes: Seq<u8>,
}

/// The mathematical value of a [`DownloadHeader`].
#[verifier::ext_equal]
pub struct HeaderView {
    pub response: ResponseView,
    pub packets: Seq<u64>,
    pub arrived_bytes: usize,
    pub started: Stamp,
}

impl View for FileResponseHeader {
    type V = ResponseView;

    open spec fn view(&self) -> ResponseView {
        ResponseView {
            identificator: self.packet_identificator@,
            file_name: self.file_name@,
            file_hash: self.file_hash@,
            total_size: self.total_size,
            packet_count: self.file_packet_count,
        }
    }
}

impl View for FilePacket {
    type V = PacketView;

    open spec fn view(&self) -> PacketView {
        PacketView {
            parent_id: self.parent_id@,
            packet_id: self.packet_id,
            file_hash: self.file_hash@,
            bytes: self.bytes@,
        }
    }
}

impl View for DownloadHeader {
    type V = HeaderView;

    open spec fn view(&self) -> HeaderView {
        HeaderView {
            response: self.file_response@,
            packets: self.packet_list@,
            arrived_bytes: self.arrived_bytes,
            started: self.initiated_stamp,
        }
    }
}

impl Clone for DownloadHeader {
    fn clone(&self) -> (copy: DownloadHeader)
        ensures
            copy@ == self@,
    {
        let copy = DownloadHeader {
            file_response: FileResponseHeader {
                packet_identificator: self.file_response.packet_identificator.clone(),
                file_name: self.file_response.file_name.clone(),
                file_hash: self.file_response.file_hash.clone(),
                total_size: self.file_response.total_size,
                file_packet_count: self.file_response.file_packet_count,
            },
            packet_list: self.packet_list.clone(),
            arrived_bytes: self.arrived_bytes,
            initiated_stamp: self.initiated_stamp,
        };
        assert(copy.packet_list@ =~= self.packet_list@);
        copy
    }
}

impl HeaderView {
    /// Whether as many packets have come in as were announced.
    pub open spec fn is_complete(self) -> bool {
        #[verifier::truncate] (self.response.packet_count as usize) == self.packets.len()
    }

    /// The download with one more packet.
    pub open spec fn with_packet(self, packet_id: u64) -> HeaderView {
        HeaderView { packets: self.packets.push(packet_id), ..self }
    }

    /// The download with more bytes written.
    pub open spec fn with_bytes(self, count: usize) -> HeaderView {
        HeaderView { arrived_bytes: (self.arrived_bytes + count) as usize, ..self }
    }
}

/// Downloads under their identificators, in the order of a list.
pub type Entries = Seq<(Seq<char>, HeaderView)>;

/// Where an identificator stands in a list.
pub open spec fn position(entries: Entries, id: Seq<char>) -> Option<int> {
    if exists|i: int| 0 <= i < entries.len() && (#[trigger] entries[i]).0 == id {
        Some(choose|i: int| 0 <= i < entries.len() && (#[trigger] entries[i]).0 == id)
    } else {
        None
    }
}

/// The download under an identificator in a list.
pub open spec fn lookup(entries: Entries, id: Seq<char>) -> Option<HeaderView> {
    match position(entries, id) {
        Some(i) => Some(entries[i].1),
        None => None,
    }
}

/// Whether no identificator stands in a list twice.
pub open spec fn distinct_ids(entries: Entries) -> bool {
    forall|i: int, j: int|
        0 <= i < j < entries.len() ==> (#[trigger] entries[i]).0 != (#[trigger] entries[j]).0
}

/// The list after a download is put under an identificator: in place of the one that stands
/// under it, else at the end.
pub open spec fn with_entry(entries: Entries, id: Seq<char>, header: HeaderView) -> Entries {
    match position(entries, id) {
        Some(i) => entries.update(i, (id, header)),
        None => entries.push((id, header)),
    }
}

/// The list after the download under an identificator is taken out: the last one moves to its
/// place.
pub open spec fn without_entry(entries: Entries, id: Seq<char>) -> Entries {
    match position(entries, id) {
        Some(i) => entries.update(i, entries.last()).drop_last(),
        None => entries,
    }
}

/// `indexmap::IndexMap`, a map that keeps its entries in an order.
#[verifier::external_type_specification]
#[verifier::external_body]
#[verifier::reject_recursive_types(K)]
#[verifier::reject_recursive_types(V)]
#[verifier::reject_recursive_types(S)]
pub struct ExIndexMap<K, V, S>(indexmap::IndexMap<K, V, S>);

/// What a list of downloads holds, in its order.
pub uninterp spec fn entries(list: IndexMap<String, DownloadHeader>) -> Seq<(Seq<char>, HeaderView)>;

/// An empty list, from `indexmap::IndexMap::new`.
#[verifier::external_body]
pub(crate) fn new_list() -> (list: IndexMap<String, DownloadHeader>)
    ensures
        entries(list) == Seq::<(Seq<char>, HeaderView)>::empty(),
{
    IndexMap::new()
}

/// Puts a download under an identificator, by `indexmap::IndexMap::insert`: a download that
/// stands under it is replaced and keeps its place, otherwise the new one comes last. No
/// identificator stands in the list twice, before or after.
#[verifier::external_body]
pub(crate) fn insert(
    list: &mut IndexMap<String, DownloadHeader>,
    id: String,
    header: DownloadHeader,
)
    ensures
        entries(*final(list)) == with_entry(entries(*old(list)), id@, header@),
        distinct_ids(entries(*old(list))),
        distinct_ids(entries(*final(list))),
{
    list.insert(id, header);
}

/// The download under an identificator, from `indexmap::IndexMap::get_mut`: what is done to it is
/// done to the list. No identificator stands in the list twice.
#[verifier::external_body]
pub(crate) fn get_mut<'a>(
    list: &'a mut IndexMap<String, DownloadHeader>,
    id: &String,
) -> (found: Option<&'a mut DownloadHeader>)
    ensures
        distinct_ids(entries(*old(list))),
        match (found, position(entries(*old(list)), id@)) {
            (Some(header), Some(i)) => {
                &&& header@ == entries(*old(list))[i].1
                &&& entries(*final(list)) == entries(*old(list)).update(i, (id@, final(header)@))
            },
            (None, None) => entries(*final(list)) == entries(*old(list)),
            _ => false,
        },
{
    list.get_mut(id)
}

/// The download under an identificator, from `indexmap::IndexMap::get`.
#[verifier::external_body]
pub(crate) fn get<'a>(
    list: &'a IndexMap<String, DownloadHeader>,
    id: &String,
) -> (found: Option<&'a DownloadHeader>)
    ensures
        match (found, position(entries(*list), id@)) {
            (Some(header), Some(i)) => header@ == entries(*list)[i].1,
            (None, None) => true,
            _ => false,
        },
{
    list.get(id)
}

/// Takes the download under an identificator out of a list, by `indexmap::IndexMap::swap_remove`:
/// the last one moves to its place. No identificator stands in the list twice, before or after.
#[verifier::external_body]
pub(crate) fn swap_remove(list: &mut IndexMap<String, DownloadHeader>, id: &String)
    ensures
        entries(*final(list)) == without_entry(entries(*old(list)), id@),
        distinct_ids(entries(*old(list))),
        distinct_ids(entries(*final(list))),
{
    list.swap_remove(id);
}

/// The downloads of a list in their order, from `indexmap::IndexMap::values`.
#[verifier::external_body]
pub(crate) fn values(list: &IndexMap<String, DownloadHeader>) -> (headers: Vec<&DownloadHeader>)
    ensures
        headers.len() == entries(*list).len(),
        forall|i: int|
            0 <= i < headers.len() ==> (#[trigger] headers@[i])@ == entries(*list)[i].1,
{
    list.values().collect()
}

/// How many downloads a list holds, from `indexmap::IndexMap::len`.
#[verifier::external_body]
pub(crate) fn len(list: &IndexMap<String, DownloadHeader>) -> (count: usize)
    ensures
        count == entries(*list).len(),
{
    list.len()
}

/// The download at a place in the order of a list, from `indexmap::IndexMap::index` with a number.
#[verifier::external_body]
pub(crate) fn at(list: &IndexMap<String, DownloadHeader>, index: usize) -> (header: &DownloadHeader)
    requires
        index < entries(*list).len(),
    ensures
        header@ == entries(*list)[index as int].1,
{
    &list[index]
}

/// A copy of a list, from `indexmap::IndexMap::clone`: copies of its identificators and downloads,
/// in the same order. No identificator stands in it twice.
#[verifier::external_body]
pub(crate) fn copy_list(
    list: &IndexMap<String, DownloadHeader>,
) -> (copy: IndexMap<String, DownloadHeader>)
    ensures
        entries(copy) == entries(*list),
        distinct_ids(entries(copy)),
{
    list.clone()
}

/// An identificator stands where it was found.
pub proof fn lemma_position_of(list: Entries, id: Seq<char>, i: int)
    requires
        distinct_ids(list),
        0 <= i < list.len(),
        list[i].0 == id,
    ensures
        position(list, id) == Some(i),
{
    let j = position(list, id)->0;
    assert(0 <= j < list.len() && list[j].0 == id);
    assert(!(i < j) && !(j < i));
}

/// A download that is put under an identificator stands under it, and the list still holds no
/// identificator twice.
pub proof fn lemma_with_entry(list: Entries, id: Seq<char>, header: HeaderView)
    requires
        distinct_ids(list),
    ensures
        lookup(with_entry(list, id, header), id) == Some(header),
        distinct_ids(with_entry(list, id, header)),
{
    let after = with_entry(list, id, header);
    match position(list, id) {
        Some(i) => {
            assert(list[i].0 == id);
            assert forall|a: int, b: int| 0 <= a < b < after.len() implies (#[trigger] after[a]).0
                != (#[trigger] after[b]).0 by {
                assert(after[a].0 == list[a].0 && after[b].0 == list[b].0);
            }
            lemma_position_of(after, id, i);
        },
        None => {
            assert forall|a: int, b: int| 0 <= a < b < after.len() implies (#[trigger] after[a]).0
                != (#[trigger] after[b]).0 by {
                assert(after[a] == list[a]);
            }
            lemma_position_of(after, id, list.len() as int);
        },
    }
}

/// A download that is put under an identificator leaves those under others as they are.
pub proof fn lemma_with_entry_leaves_others(
    list: Entries,
    id: Seq<char>,
    header: HeaderView,
    other: Seq<char>,
)
    requires
        distinct_ids(list),
        id != other,
    ensures
        lookup(with_entry(list, id, header), other) == lookup(list, other),
{
    let after = with_entry(list, id, header);
    lemma_with_entry(list, id, header);
    if let Some(i) = position(list, other) {
        assert(list[i].0 == other);
        assert(after[i] == list[i]);
        lemma_position_of(after, other, i);
    } else if let Some(i) = position(after, other) {
        assert(after[i].0 == other);
        assert(list[i].0 == other);
    }
}

/// A download that is taken out is gone, and the list still holds no identificator twice.
pub proof fn lemma_without_entry(list: Entries, id: Seq<char>)
    requires
        distinct_ids(list),
    ensures
        lookup(without_entry(list, id), id) is None,
        distinct_ids(without_entry(list, id)),
{
    let after = without_entry(list, id);
    if let Some(i) = position(list, id) {
        assert(list[i].0 == id);
        let last = list.len() - 1;
        assert forall|a: int, b: int| 0 <= a < b < after.len() implies (#[trigger] after[a]).0 != (
        #[trigger] after[b]).0 by {
            assert(after[a] == if a == i { list[last] } else { list[a] });
            assert(after[b] == if b == i { list[last] } else { list[b] });
        }
        if let Some(j) = position(after, id) {
            assert(after[j].0 == id);
            assert(after[j] == if j == i { list[last] } else { list[j] });
            assert(list[i].0 == id);
        }
    }
}

/// Taking a download out leaves those under other identificators as they are.
pub proof fn lemma_without_entry_leaves_others(list: Entries, id: Seq<char>, other: Seq<char>)
    requires
        distinct_ids(list),
        id != other,
    ensures
        lookup(without_entry(list, id), other) == lookup(list, other),
{
    let after = without_entry(list, id);
    lemma_without_entry(list, id);
    if let Some(i) = position(list, id) {
        assert(list[i].0 == id);
        let last = list.len() - 1;
        if let Some(j) = position(list, other) {
            assert(list[j].0 == other);
            let k = if j == last { i } else { j };
            assert(after[k] == list[j]);
            lemma_position_of(after, other, k);
        } else if let Some(j) = position(after, other) {
            assert(after[j].0 == other);
            let k = if j == i { last } else { j };
            assert(list[k].0 == other);
        }
    }
}

/// The values of an announcement, a packet and a download leave none of their fields out.
pub proof fn lemma_values_of_downloads(
    response: FileResponseHeader,
    packet: FilePacket,
    header: DownloadHeader,
)
    ensures
        response@.identificator == response.packet_identificator@,
        response@.file_name == response.file_name@,
        response@.file_hash == response.file_hash@,
        response@.total_size == response.total_size,
        response@.packet_count == response.file_packet_count,
        packet@.parent_id == packet.parent_id@,
        packet@.packet_id == packet.packet_id,
        packet@.file_hash == packet.file_hash@,
        packet@.bytes == packet.bytes@,
        header@.response == header.file_response@,
        header@.packets == header.packet_list@,
        header@.arrived_bytes == header.arrived_bytes,
        header@.started == header.initiated_stamp,
{
}

/// A download is complete just when as many packets have come in as were announced. (The number that
/// was announced is taken as a `usize`.)
pub proof fn lemma_complete_with_as_many_packets_as_announced(header: HeaderView)
    ensures
        header.response.packet_count <= usize::MAX ==> (header.is_complete()
            <==> header.packets.len() == header.response.packet_count),
{
}

/// A packet adds its number behind the others and changes nothing else; what was written adds to
/// the count of bytes and changes nothing else.
pub proof fn lemma_packet_and_bytes_are_added(header: HeaderView, packet_id: u64, count: usize)
    ensures
        ({
            let more = header.with_packet(packet_id);
            &&& more.packets.len() == header.packets.len() + 1
            &&& more.packets.last() == packet_id
            &&& more.packets.drop_last() == header.packets
            &&& more.response == header.response
            &&& more.arrived_bytes == header.arrived_bytes
            &&& more.started == header.started
        }),
        header.arrived_bytes + count <= usize::MAX ==> header.with_bytes(count).arrived_bytes
            == header.arrived_bytes + count,
        header.with_bytes(count).packets == header.packets,
        header.with_bytes(count).response == header.response,
        header.with_bytes(count).started == header.started,
{
    assert(header.with_packet(packet_id).packets.drop_last() =~= header.packets);
}

/// What stands under an identificator is one of the entries with it; there is none just where no
/// entry has it.
pub proof fn lemma_lookup_finds_an_entry(list: Entries, id: Seq<char>)
    ensures
        lookup(list, id) matches Some(header) ==> exists|i: int|
            0 <= i < list.len() && #[trigger] list[i] == (id, header),
        lookup(list, id) is None <==> forall|i: int|
            0 <= i < list.len() ==> (#[trigger] list[i]).0 != id,
{
    if let Some(i) = position(list, id) {
        assert(0 <= i < list.len() && list[i].0 == id);
        assert(list[i] == (id, list[i].1));
    }
}

/// A download that is put under an identificator takes the place of the one there, else the last
/// place; every other download keeps its place.
pub proof fn lemma_with_entry_keeps_places(
    list: Entries,
    id: Seq<char>,
    header: HeaderView,
    i: int,
)
    requires
        distinct_ids(list),
        0 <= i < list.len(),
    ensures
        list[i].0 != id ==> with_entry(list, id, header)[i] == list[i],
        list[i].0 == id ==> with_entry(list, id, header)[i] == (id, header),
        with_entry(list, id, header).len() == if lookup(list, id) is Some {
            list.len()
        } else {
            list.len() + 1
        },
        lookup(list, id) is None ==> with_entry(list, id, header).last() == (id, header),
{
    if list[i].0 == id {
        lemma_position_of(list, id, i);
    } else if let Some(j) = position(list, id) {
        assert(list[j].0 == id);
    }
}

} // verus!
