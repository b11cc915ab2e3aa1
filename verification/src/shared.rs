//! Shared folders: what was found in them, the trees that are published of them, and the list of
//! files that can be requested.

use crate::tree::{
    FileTree, TreeView, forest, listed_files, listed_in_forest, lists_hash, tree_at,
};
use vstd::hash_map::StringHashMap;
use vstd::prelude::*;

verus! {

/// `std::path::PathBuf`: where a file lies. A path is handed on and never looked into.
#[verifier::external_type_specification]
#[verifier::external_body]
pub struct ExPathBuf(std::path::PathBuf);

/// `std::path::PathBuf::clone` gives the same path again.
pub assume_specification[ <std::path::PathBuf as Clone>::clone ](
    path: &std::path::PathBuf,
) -> (copy: std::path::PathBuf)
    ensures
        copy == *path,
;

/// The hashes of files and the paths that are paired with them.
pub struct FileList {
    paths: StringHashMap<std::path::PathBuf>,
    hashes: Vec<String>,
}

/// Whether `hashes` are the keys of a map, each of them once.
pub open spec fn lists_keys(
    hashes: Seq<String>,
    paths: Map<Seq<char>, std::path::PathBuf>,
) -> bool {
    &&& forall|i: int| 0 <= i < hashes.len() ==> paths.contains_key((#[trigger] hashes[i])@)
    &&& forall|hash: Seq<char>| #[trigger]
        paths.contains_key(hash) ==> exists|i: int|
            0 <= i < hashes.len() && (#[trigger] hashes[i])@ == hash
    &&& forall|i: int, j: int|
        0 <= i < j < hashes.len() ==> (#[trigger] hashes[i])@ != (#[trigger] hashes[j])@
}

impl View for FileList {
    type V = Map<Seq<char>, std::path::PathBuf>;

    closed spec fn view(&self) -> Map<Seq<char>, std::path::PathBuf> {
        self.paths@
    }
}

impl FileList {
    #[verifier::type_invariant]
    spec fn well_formed(self) -> bool {
        lists_keys(self.hashes@, self.paths@)
    }

    /// A list without files.
    pub fn new() -> (list: FileList)
        ensures
            list@ == Map::<Seq<char>, std::path::PathBuf>::empty(),
    {
        FileList { paths: StringHashMap::new(), hashes: Vec::new() }
    }

    /// Pairs a hash with a path, in place of the one that it was paired with.
    pub fn insert(&mut self, hash: String, path: std::path::PathBuf)
        ensures
            final(self)@ == old(self)@.insert(hash@, path),
    {
        proof {
            use_type_invariant(&*self);
        }
        let mut list = FileList { paths: StringHashMap::new(), hashes: Vec::new() };
        std::mem::swap(self, &mut list);
        let FileList { mut paths, mut hashes } = list;
        let ghost before = hashes@;
        let ghost known = paths@;
        if !paths.contains_key(hash.as_str()) {
            hashes.push(hash.clone());
        }
        paths.insert(hash, path);
        proof {
            assert forall|key: Seq<char>| #[trigger] paths@.contains_key(key) implies exists|i: int|
                0 <= i < hashes@.len() && (#[trigger] hashes@[i])@ == key by {
                if known.contains_key(key) {
                    let i = choose|i: int| 0 <= i < before.len() && (#[trigger] before[i])@ == key;
                    assert(hashes@[i]@ == key);
                } else {
                    assert(hashes@[before.len() as int]@ == key);
                }
            }
            assert forall|i: int| 0 <= i < hashes@.len() implies paths@.contains_key(
                (#[trigger] hashes@[i])@,
            ) by {
                if i < before.len() {
                    assert(hashes@[i] == before[i]);
                }
            }
            assert forall|i: int, j: int| 0 <= i < j < hashes@.len() implies (
            #[trigger] hashes@[i])@ != (#[trigger] hashes@[j])@ by {
                assert(hashes@[i] == before[i]);
                assert(known.contains_key(before[i]@));
            }
        }
        assert(lists_keys(hashes@, paths@));
        *self = FileList { paths, hashes };
    }

    /// The path that a hash is paired with.
    pub fn get(&self, hash: &str) -> (path: Option<&std::path::PathBuf>)
        ensures
            match path {
                Some(path) => self@.contains_key(hash@) && *path == self@[hash@],
                None => !self@.contains_key(hash@),
            },
    {
        self.paths.get(hash)
    }

    /// Every hash of the list, once.
    pub fn hashes(&self) -> (hashes: &Vec<String>)
        ensures
            lists_keys(hashes@, self@),
    {
        proof {
            use_type_invariant(self);
        }
        &self.hashes
    }
}

impl Clone for FileList {
    fn clone(&self) -> (copy: FileList)
        ensures
            copy@ == self@,
    {
        proof {
            use_type_invariant(self);
        }
        let mut copy = FileList::new();
        let mut i: usize = 0;
        while i < self.hashes.len()
            invariant
                i <= self.hashes.len(),
                lists_keys(self.hashes@, self@),
                forall|hash: Seq<char>| #[trigger]
                    copy@.contains_key(hash) ==> self@.contains_key(hash) && copy@[hash]
                        == self@[hash],
                forall|j: int|
                    0 <= j < i ==> copy@.contains_key((#[trigger] self.hashes@[j])@),
            decreases self.hashes.len() - i,
        {
            if let Some(path) = self.get(self.hashes[i].as_str()) {
                copy.insert(self.hashes[i].clone(), path.clone());
            }
            i += 1;
        }
        assert(copy@ =~= self@);
        copy
    }
}

/// What a folder was found to hold: entries in the order in which they were read, or why it could
/// not be read.
pub enum Contents {
    Unreadable(String),
    Entries(Vec<Entry>),
}

/// A folder as it was found. A path without a last component has no name.
pub struct Folder {
    pub name: Option<String>,
    pub contents: Contents,
}

/// A file as it was found: its name, the text of its path, and the path itself.
pub struct FoundFile {
    pub name: Option<String>,
    pub text: String,
    pub path: std::path::PathBuf,
}

/// An entry of a folder, or why it could not be read.
pub enum Entry {
    Unreadable(String),
    Folder(Folder),
    File(FoundFile),
}

/// Why folders cannot be published.
pub enum ScanError {
    /// A folder or an entry could not be read.
    Unreadable(String),
    /// A path has no file name.
    MissingName,
}

/// The mathematical value of a [`ScanError`].
#[verifier::ext_equal]
pub enum Fault {
    Unreadable(Seq<char>),
    MissingName,
}

impl View for ScanError {
    type V = Fault;

    open spec fn view(&self) -> Fault {
        match self {
            ScanError::Unreadable(reason) => Fault::Unreadable(reason@),
            ScanError::MissingName => Fault::MissingName,
        }
    }
}

impl Fault {
    /// The fault in words.
    pub open spec fn words(self) -> Seq<char> {
        match self {
            Fault::Unreadable(reason) => reason,
            Fault::MissingName => "File name doesnt exist"@,
        }
    }
}

impl ScanError {
    /// The error in words.
    pub fn text(&self) -> (text: String)
        ensures
            text@ == self@.words(),
            *self matches ScanError::Unreadable(reason) ==> text@ == reason@,
            *self is MissingName ==> text@ == "File name doesnt exist"@,
    {
        match self {
            ScanError::Unreadable(reason) => reason.clone(),
            ScanError::MissingName => "File name doesnt exist".to_owned(),
        }
    }
}

/// The first thing that keeps a folder from being published: that it is unreadable, that it has
/// no name, then what is wrong with its entries.
pub open spec fn folder_fault(folder: Folder) -> Option<Fault>
    decreases folder,
{
    match folder.contents {
        Contents::Unreadable(reason) => Some(Fault::Unreadable(reason@)),
        Contents::Entries(entries) => if folder.name is None {
            Some(Fault::MissingName)
        } else {
            entries_fault(entries@)
        },
    }
}

/// The first thing that keeps an entry from being published.
pub open spec fn entry_fault(entry: Entry) -> Option<Fault>
    decreases entry,
{
    match entry {
        Entry::Unreadable(reason) => Some(Fault::Unreadable(reason@)),
        Entry::Folder(folder) => if folder.name is None {
            Some(Fault::MissingName)
        } else {
            folder_fault(folder)
        },
        Entry::File(file) => if file.name is None {
            Some(Fault::MissingName)
        } else {
            None
        },
    }
}

/// The fault of the first entry that has one.
pub open spec fn entries_fault(entries: Seq<Entry>) -> Option<Fault>
    decreases entries,
{
    if entries.len() == 0 {
        None
    } else {
        match entries_fault(entries.subrange(0, entries.len() - 1)) {
            Some(fault) => Some(fault),
            None => entry_fault(entries[entries.len() - 1]),
        }
    }
}

/// The text of the SHA-256 hash of a text, in hexadecimal digits.
pub uninterp spec fn sha256_text(text: Seq<char>) -> Seq<char>;

/// The tree that is published of a folder.
pub open spec fn folder_tree(folder: Folder) -> TreeView
    decreases folder,
{
    TreeView::Folder {
        name: folder.name->0@,
        children: match folder.contents {
            Contents::Unreadable(_) => Seq::empty(),
            Contents::Entries(entries) => Seq::new(
                entries@.len(),
                |i: int|
                    if 0 <= i < entries@.len() {
                        entry_tree(entries@[i])
                    } else {
                        TreeView::Empty
                    },
            ),
        },
    }
}

/// The tree that is published of an entry. A file goes under the hash of the text of its path.
pub open spec fn entry_tree(entry: Entry) -> TreeView
    decreases entry,
{
    match entry {
        Entry::Unreadable(_) => TreeView::Empty,
        Entry::Folder(folder) => folder_tree(folder),
        Entry::File(file) => TreeView::File { name: file.name->0@, hash: sha256_text(file.text@) },
    }
}

/// The files below a folder, in the order in which they were found.
pub open spec fn folder_files(folder: Folder) -> Seq<FoundFile>
    decreases folder,
{
    match folder.contents {
        Contents::Unreadable(_) => Seq::empty(),
        Contents::Entries(entries) => entries_files(entries@),
    }
}

/// The files that an entry is or holds.
pub open spec fn entry_files(entry: Entry) -> Seq<FoundFile>
    decreases entry,
{
    match entry {
        Entry::Unreadable(_) => Seq::empty(),
        Entry::Folder(folder) => folder_files(folder),
        Entry::File(file) => seq![file],
    }
}

/// The files of several entries, one after the other.
pub open spec fn entries_files(entries: Seq<Entry>) -> Seq<FoundFile>
    decreases entries,
{
    if entries.len() == 0 {
        Seq::empty()
    } else {
        entries_files(entries.subrange(0, entries.len() - 1)) + entry_files(
            entries[entries.len() - 1],
        )
    }
}

/// A list of files after others are added to it, each under the hash of the text of its path.
/// Of two files under one hash the later one stays.
pub open spec fn with_files(
    list: Map<Seq<char>, std::path::PathBuf>,
    files: Seq<FoundFile>,
) -> Map<Seq<char>, std::path::PathBuf>
    decreases files.len(),
{
    if files.len() == 0 {
        list
    } else {
        with_files(list, files.drop_last()).insert(
            sha256_text(files.last().text@),
            files.last().path,
        )
    }
}

/// The first fault of several folders.
pub open spec fn folders_fault(folders: Seq<Folder>) -> Option<Fault>
    decreases folders.len(),
{
    if folders.len() == 0 {
        None
    } else {
        match folders_fault(folders.drop_last()) {
            Some(fault) => Some(fault),
            None => folder_fault(folders.last()),
        }
    }
}

/// The trees that are published of several folders.
pub open spec fn folders_trees(folders: Seq<Folder>) -> Seq<TreeView> {
    Seq::new(folders.len(), |i: int| folder_tree(folders[i]))
}

/// The files below several folders.
pub open spec fn folders_files(folders: Seq<Folder>) -> Seq<FoundFile>
    decreases folders.len(),
{
    if folders.len() == 0 {
        Seq::empty()
    } else {
        folders_files(folders.drop_last()) + folder_files(folders.last())
    }
}

/// Whether a text is made of 64 hexadecimal digits, with small letters.
pub open spec fn is_hash_text(text: Seq<char>) -> bool {
    &&& text.len() == 64
    &&& forall|i: int|
        0 <= i < text.len() ==> '0' <= #[trigger] text[i] <= '9' || 'a' <= text[i] <= 'f'
}

/// Whether every key of a list of files is made of 64 hexadecimal digits.
pub open spec fn has_hash_keys(list: Map<Seq<char>, std::path::PathBuf>) -> bool {
    forall|hash: Seq<char>| #[trigger] list.contains_key(hash) ==> is_hash_text(hash)
}

/// The SHA-256 hash of a text in hexadecimal digits, from `sha256::digest`: 64 of them, with small
/// letters. The hash depends on the text alone.
#[verifier::external_body]
fn digest(text: String) -> (hash: String)
    ensures
        hash@ == sha256_text(text@),
        is_hash_text(hash@),
{
    sha256::digest(text)
}

proof fn lemma_with_files_appended(
    list: Map<Seq<char>, std::path::PathBuf>,
    first: Seq<FoundFile>,
    second: Seq<FoundFile>,
)
    ensures
        with_files(list, first + second) == with_files(with_files(list, first), second),
    decreases second.len(),
{
    if second.len() == 0 {
        assert(first + second =~= first);
    } else {
        assert((first + second).drop_last() =~= first + second.drop_last());
        lemma_with_files_appended(list, first, second.drop_last());
    }
}

proof fn lemma_fault_of_prefix(entries: Seq<Entry>, n: int)
    requires
        0 <= n <= entries.len(),
        entries_fault(entries.subrange(0, n)) is Some,
    ensures
        entries_fault(entries) == entries_fault(entries.subrange(0, n)),
    decreases entries.len() - n,
{
    if n == entries.len() {
        assert(entries.subrange(0, n) =~= entries);
    } else {
        assert(entries.subrange(0, n + 1).subrange(0, n) =~= entries.subrange(0, n));
        lemma_fault_of_prefix(entries, n + 1);
    }
}

proof fn lemma_fault_of_folders_prefix(folders: Seq<Folder>, n: int)
    requires
        0 <= n <= folders.len(),
        folders_fault(folders.take(n)) is Some,
    ensures
        folders_fault(folders) == folders_fault(folders.take(n)),
    decreases folders.len() - n,
{
    if n == folders.len() {
        assert(folders.take(n) =~= folders);
    } else {
        assert(folders.take(n + 1).drop_last() =~= folders.take(n));
        lemma_fault_of_folders_prefix(folders, n + 1);
    }
}

/// Publishes one folder: adds its files to a list and returns its tree.
#[verifier::loop_isolation(false)]
fn publish_folder(folder: Folder, list: &mut FileList) -> (tree: Result<FileTree, ScanError>)
    ensures
        match tree {
            Ok(tree) => {
                &&& folder_fault(folder) is None
                &&& tree@ == folder_tree(folder)
                &&& final(list)@ == with_files(old(list)@, folder_files(folder))
            },
            Err(error) => folder_fault(folder) == Some(error@),
        },
        has_hash_keys(old(list)@) ==> has_hash_keys(final(list)@),
    decreases folder,
{
    let entries = match folder.contents {
        Contents::Unreadable(reason) => {
            return Err(ScanError::Unreadable(reason));
        },
        Contents::Entries(entries) => entries,
    };
    let name = match folder.name {
        None => {
            return Err(ScanError::MissingName);
        },
        Some(name) => name,
    };
    let mut children: Vec<FileTree> = Vec::new();
    let ghost all = entries@;
    assert(all.subrange(0, 0) =~= Seq::<Entry>::empty());
    for entry in iter: entries
        invariant
            iter.seq() == all,
            children@.len() == iter.index(),
            entries_fault(all.subrange(0, iter.index() as int)) is None,
            forall|i: int|
                0 <= i < children@.len() ==> (#[trigger] children@[i])@ == entry_tree(all[i]),
            list@ == with_files(old(list)@, entries_files(all.subrange(0, iter.index() as int))),
            has_hash_keys(old(list)@) ==> has_hash_keys(list@),
    {
        let ghost n = iter.index() as int;
        let ghost before = list@;
        proof {
            assert(all.subrange(0, n + 1).subrange(0, n) =~= all.subrange(0, n));
            assert(entries_fault(all.subrange(0, n + 1)) == entry_fault(all[n]));
            if entry_fault(all[n]) is Some {
                lemma_fault_of_prefix(all, n + 1);
            }
            lemma_with_files_appended(
                old(list)@,
                entries_files(all.subrange(0, n)),
                entry_files(all[n]),
            );
        }
        match entry {
            Entry::Unreadable(reason) => {
                return Err(ScanError::Unreadable(reason));
            },
            Entry::Folder(inner) => {
                if inner.name.is_none() {
                    return Err(ScanError::MissingName);
                }
                match publish_folder(inner, list) {
                    Ok(tree) => children.push(tree),
                    Err(error) => {
                        return Err(error);
                    },
                }
            },
            Entry::File(file) => match file.name {
                None => {
                    return Err(ScanError::MissingName);
                },
                Some(name) => {
                    let hash = digest(file.text);
                    children.push(FileTree::File((name, hash.clone())));
                    list.insert(hash, file.path);
                    assert(seq![file].drop_last() =~= Seq::<FoundFile>::empty());
                    assert(with_files(before, seq![file].drop_last()) == before);
                },
            },
        }
    }
    assert(all.subrange(0, all.len() as int) =~= all);
    let tree = FileTree::Folder((name, children));
    assert(tree@->children =~= folder_tree(folder)->children);
    Ok(tree)
}

/// Publishes folders: a tree of each, in order, and the list of the files below them. The first
/// folder or entry that cannot be published stops all of it.
pub fn folder_into_file_tree(
    folders: Vec<Folder>,
) -> (published: Result<(Vec<FileTree>, FileList), ScanError>)
    ensures
        match published {
            Ok((trees, list)) => {
                &&& folders_fault(folders@) is None
                &&& forest(trees@) == folders_trees(folders@)
                &&& list@ == with_files(Map::empty(), folders_files(folders@))
                &&& has_hash_keys(list@)
            },
            Err(error) => folders_fault(folders@) == Some(error@),
        },
{
    let mut list = FileList::new();
    let mut trees: Vec<FileTree> = Vec::new();
    let ghost all = folders@;
    for folder in iter: folders
        invariant
            iter.seq() == all,
            trees@.len() == iter.index(),
            folders_fault(all.take(iter.index() as int)) is None,
            forall|i: int|
                0 <= i < trees@.len() ==> (#[trigger] trees@[i])@ == folder_tree(all[i]),
            list@ == with_files(Map::empty(), folders_files(all.take(iter.index() as int))),
            has_hash_keys(list@),
    {
        let ghost n = iter.index() as int;
        proof {
            assert(all.take(n + 1).drop_last() =~= all.take(n));
            if folder_fault(all[n]) is Some {
                lemma_fault_of_folders_prefix(all, n + 1);
            }
            lemma_with_files_appended(
                Map::empty(),
                folders_files(all.take(n)),
                folder_files(all[n]),
            );
        }
        match publish_folder(folder, &mut list) {
            Ok(tree) => trees.push(tree),
            Err(error) => {
                return Err(error);
            },
        }
    }
    assert(all.take(all.len() as int) =~= all);
    assert(forest(trees@) =~= folders_trees(all));
    Ok((trees, list))
}

/// What a published tree lists of a file: the hash of the text of its path, and its name.
pub open spec fn listing_of(files: Seq<FoundFile>) -> Seq<(Seq<char>, Seq<char>)> {
    Seq::new(files.len(), |i: int| (sha256_text(files[i].text@), files[i].name->0@))
}

proof fn lemma_folder_listing(folder: Folder)
    requires
        folder_fault(folder) is None,
    ensures
        listed_files(folder_tree(folder)) == listing_of(folder_files(folder)),
    decreases folder,
{
    let entries = folder.contents->Entries_0@;
    let children = folder_tree(folder)->children;
    lemma_entries_listing(entries, children);
}

proof fn lemma_entries_listing(entries: Seq<Entry>, trees: Seq<TreeView>)
    requires
        entries_fault(entries) is None,
        trees.len() == entries.len(),
        forall|i: int| 0 <= i < entries.len() ==> #[trigger] trees[i] == entry_tree(entries[i]),
    ensures
        listed_in_forest(trees) == listing_of(entries_files(entries)),
    decreases entries,
{
    if entries.len() == 0 {
        assert(listing_of(entries_files(entries)) =~= Seq::empty());
    } else {
        let n = entries.len() - 1;
        let front = entries.subrange(0, n);
        lemma_entries_listing(front, trees.subrange(0, n));
        let last = entries[n];
        assert(entry_fault(last) is None);
        if let Entry::Folder(folder) = last {
            lemma_folder_listing(folder);
        }
        assert(listed_files(entry_tree(last)) =~= listing_of(entry_files(last)));
        assert(listing_of(entries_files(front) + entry_files(last)) =~= listing_of(
            entries_files(front),
        ) + listing_of(entry_files(last)));
    }
}

/// The published trees list every file below the folders, under its name and the hash of the
/// text of its path, and nothing else.
pub proof fn lemma_trees_list_every_file(folders: Seq<Folder>)
    requires
        folders_fault(folders) is None,
    ensures
        listed_in_forest(folders_trees(folders)) == listing_of(folders_files(folders)),
    decreases folders.len(),
{
    if folders.len() == 0 {
        assert(listing_of(folders_files(folders)) =~= Seq::empty());
    } else {
        let front = folders.drop_last();
        let n = folders.len() - 1;
        lemma_trees_list_every_file(front);
        lemma_folder_listing(folders.last());
        assert(folders_trees(folders).subrange(0, n) =~= folders_trees(front));
        assert(listing_of(folders_files(front) + folder_files(folders.last())) =~= listing_of(
            folders_files(front),
        ) + listing_of(folder_files(folders.last())));
    }
}

proof fn lemma_keys_of_with_files(
    list: Map<Seq<char>, std::path::PathBuf>,
    files: Seq<FoundFile>,
    hash: Seq<char>,
)
    ensures
        with_files(list, files).contains_key(hash) <==> list.contains_key(hash) || exists|i: int|
            0 <= i < files.len() && sha256_text((#[trigger] files[i]).text@) == hash,
    decreases files.len(),
{
    if files.len() > 0 {
        let front = files.drop_last();
        lemma_keys_of_with_files(list, front, hash);
        assert(files.last() == files[files.len() - 1]);
        if exists|i: int| 0 <= i < files.len() && sha256_text((#[trigger] files[i]).text@) == hash {
            let i = choose|i: int|
                0 <= i < files.len() && sha256_text((#[trigger] files[i]).text@) == hash;
            if i < front.len() {
                assert(front[i] == files[i]);
            }
        }
        if exists|i: int| 0 <= i < front.len() && sha256_text((#[trigger] front[i]).text@) == hash {
            let i = choose|i: int|
                0 <= i < front.len() && sha256_text((#[trigger] front[i]).text@) == hash;
            assert(front[i] == files[i]);
        }
    }
}

/// Every file that the published trees list can be requested, and no other: the list of files
/// holds exactly the hashes that the trees list.
pub proof fn lemma_listed_files_can_be_requested(folders: Seq<Folder>, hash: Seq<char>)
    requires
        folders_fault(folders) is None,
    ensures
        with_files(Map::empty(), folders_files(folders)).contains_key(hash) <==> lists_hash(
            folders_trees(folders),
            hash,
        ),
{
    let files = folders_files(folders);
    lemma_trees_list_every_file(folders);
    lemma_keys_of_with_files(Map::empty(), files, hash);
    let listing = listing_of(files);
    if exists|i: int| 0 <= i < files.len() && sha256_text((#[trigger] files[i]).text@) == hash {
        let i = choose|i: int|
            0 <= i < files.len() && sha256_text((#[trigger] files[i]).text@) == hash;
        assert(listing[i].0 == hash);
    }
    if exists|i: int| 0 <= i < listing.len() && (#[trigger] listing[i]).0 == hash {
        let i = choose|i: int| 0 <= i < listing.len() && (#[trigger] listing[i]).0 == hash;
        assert(sha256_text(files[i].text@) == hash);
    }
}

/// The hash of a file leads to the path of the last file that was found under that hash: to its
/// own, unless a later file has the same hash.
pub proof fn lemma_hash_leads_to_last_file(
    list: Map<Seq<char>, std::path::PathBuf>,
    files: Seq<FoundFile>,
    i: int,
)
    requires
        0 <= i < files.len(),
        forall|j: int|
            i < j < files.len() ==> sha256_text((#[trigger] files[j]).text@) != sha256_text(
                files[i].text@,
            ),
    ensures
        with_files(list, files).contains_key(sha256_text(files[i].text@)),
        with_files(list, files)[sha256_text(files[i].text@)] == files[i].path,
    decreases files.len(),
{
    if i < files.len() - 1 {
        let front = files.drop_last();
        assert(files.last() == files[files.len() - 1]);
        assert forall|j: int| i < j < front.len() implies sha256_text((#[trigger] front[j]).text@)
            != sha256_text(front[i].text@) by {
            assert(front[j] == files[j]);
        }
        lemma_hash_leads_to_last_file(list, front, i);
    }
}

/// The entries that were found in a folder.
pub open spec fn entries_of(folder: Folder) -> Seq<Entry> {
    match folder.contents {
        Contents::Entries(entries) => entries@,
        Contents::Unreadable(_) => Seq::empty(),
    }
}

/// The entry that was found at a path: the numbers of the entries to go down through.
pub open spec fn entry_at(entries: Seq<Entry>, path: Seq<int>) -> Option<Entry>
    decreases path.len(),
{
    if path.len() == 0 || !(0 <= path[0] < entries.len()) {
        None
    } else if path.len() == 1 {
        Some(entries[path[0]])
    } else {
        match entries[path[0]] {
            Entry::Folder(folder) => entry_at(entries_of(folder), path.drop_first()),
            _ => None,
        }
    }
}

/// Whether one path leads to an entry that was found before that of another path.
pub open spec fn precedes(first: Seq<int>, second: Seq<int>) -> bool
    decreases first.len(),
{
    &&& first.len() > 0
    &&& second.len() > 0
    &&& first[0] < second[0] || (first[0] == second[0] && precedes(
        first.drop_first(),
        second.drop_first(),
    ))
}

/// The first entry with a fault tells the fault of all; where there is none, no entry has one.
pub proof fn lemma_first_fault_of_entries(entries: Seq<Entry>)
    ensures
        match entries_fault(entries) {
            None => forall|i: int|
                0 <= i < entries.len() ==> entry_fault(#[trigger] entries[i]) is None,
            Some(fault) => exists|i: int|
                0 <= i < entries.len() && entry_fault(#[trigger] entries[i]) == Some(fault)
                    && forall|j: int|
                    0 <= j < i ==> entry_fault(#[trigger] entries[j]) is None,
        },
    decreases entries.len(),
{
    if entries.len() > 0 {
        let n = entries.len() - 1;
        let front = entries.subrange(0, n);
        lemma_first_fault_of_entries(front);
        match entries_fault(front) {
            None => {
                assert forall|i: int| 0 <= i < n implies entry_fault(
                    #[trigger] entries[i],
                ) is None by {
                    assert(front[i] == entries[i]);
                }
                assert(entry_fault(entries[n]) == entries_fault(entries));
            },
            Some(fault) => {
                let i = choose|i: int|
                    0 <= i < front.len() && entry_fault(#[trigger] front[i]) == Some(fault)
                        && forall|j: int|
                        0 <= j < i ==> entry_fault(#[trigger] front[j]) is None;
                assert(entries[i] == front[i]);
                assert forall|j: int| 0 <= j < i implies entry_fault(
                    #[trigger] entries[j],
                ) is None by {
                    assert(front[j] == entries[j]);
                }
            },
        }
    }
}

/// The first folder with a fault tells the fault of all; where there is none, no folder has one.
pub proof fn lemma_first_fault_of_folders(folders: Seq<Folder>)
    ensures
        match folders_fault(folders) {
            None => forall|i: int|
                0 <= i < folders.len() ==> folder_fault(#[trigger] folders[i]) is None,
            Some(fault) => exists|i: int|
                0 <= i < folders.len() && folder_fault(#[trigger] folders[i]) == Some(fault)
                    && forall|j: int|
                    0 <= j < i ==> folder_fault(#[trigger] folders[j]) is None,
        },
    decreases folders.len(),
{
    if folders.len() > 0 {
        let n = folders.len() - 1;
        let front = folders.drop_last();
        lemma_first_fault_of_folders(front);
        match folders_fault(front) {
            None => {
                assert forall|i: int| 0 <= i < n implies folder_fault(
                    #[trigger] folders[i],
                ) is None by {
                    assert(front[i] == folders[i]);
                }
                assert(folder_fault(folders[n]) == folders_fault(folders));
            },
            Some(fault) => {
                let i = choose|i: int|
                    0 <= i < front.len() && folder_fault(#[trigger] front[i]) == Some(fault)
                        && forall|j: int|
                        0 <= j < i ==> folder_fault(#[trigger] front[j]) is None;
                assert(folders[i] == front[i]);
                assert forall|j: int| 0 <= j < i implies folder_fault(
                    #[trigger] folders[j],
                ) is None by {
                    assert(front[j] == folders[j]);
                }
            },
        }
    }
}

/// Whether nothing is wrong with an entry by itself: it could be read and has a name, and if it is a
/// folder, it could be read too.
pub open spec fn is_fine(entry: Entry) -> bool {
    match entry {
        Entry::Unreadable(_) => false,
        Entry::Folder(folder) => folder.name is Some && folder.contents is Entries,
        Entry::File(file) => file.name is Some,
    }
}

proof fn lemma_entries_without_fault(entries: Seq<Entry>, path: Seq<int>)
    requires
        entries_fault(entries) is None,
    ensures
        entry_at(entries, path) matches Some(entry) ==> is_fine(entry) && entry_fault(entry) is None,
    decreases path.len(),
{
    lemma_first_fault_of_entries(entries);
    if path.len() > 0 && 0 <= path[0] < entries.len() {
        let entry = entries[path[0]];
        assert(entry_fault(entry) is None);
        if path.len() > 1 {
            if let Entry::Folder(folder) = entry {
                lemma_entries_without_fault(entries_of(folder), path.drop_first());
            }
        }
    }
}

proof fn lemma_path_below(entries: Seq<Entry>, i: int, inner: Seq<int>)
    requires
        0 <= i < entries.len(),
        entries[i] is Folder,
        inner.len() > 0,
    ensures
        entry_at(entries, seq![i] + inner) == entry_at(entries_of(entries[i]->Folder_0), inner),
{
    assert((seq![i] + inner).drop_first() =~= inner);
}

proof fn lemma_all_fine_is_without_fault(entries: Seq<Entry>)
    requires
        forall|path: Seq<int>| (#[trigger] entry_at(entries, path)) matches Some(entry) ==> is_fine(
            entry,
        ),
    ensures
        entries_fault(entries) is None,
    decreases entries,
{
    lemma_first_fault_of_entries(entries);
    assert forall|i: int| 0 <= i < entries.len() implies entry_fault(
        #[trigger] entries[i],
    ) is None by {
        assert(entry_at(entries, seq![i]) == Some(entries[i]));
        assert(is_fine(entries[i]));
        if let Entry::Folder(folder) = entries[i] {
            let inner = entries_of(folder);
            assert(decreases_to!(entries => entries[i]));
            assert(decreases_to!(entries[i] => folder));
            assert(decreases_to!(folder => folder.contents));
            assert(decreases_to!(folder.contents => folder.contents->Entries_0));
            assert(decreases_to!(folder.contents->Entries_0 => folder.contents->Entries_0@));
            assert forall|path: Seq<int>| (#[trigger] entry_at(inner, path)) matches Some(
                entry,
            ) implies is_fine(entry_at(inner, path)->0) by {
                lemma_path_below(entries, i, path);
            }
            lemma_all_fine_is_without_fault(inner);
        }
    }
}

/// Folders are published just where nothing is wrong: each could be read and has a name, and so it is
/// with every entry below them, at whatever depth.
pub proof fn lemma_folders_are_published_where_nothing_is_wrong(folders: Seq<Folder>)
    ensures
        folders_fault(folders) is None <==> forall|k: int|
            0 <= k < folders.len() ==> {
                &&& (#[trigger] folders[k]).name is Some
                &&& folders[k].contents is Entries
                &&& forall|path: Seq<int>|
                    (#[trigger] entry_at(entries_of(folders[k]), path)) matches Some(entry)
                        ==> is_fine(entry)
            },
{
    lemma_first_fault_of_folders(folders);
    if folders_fault(folders) is None {
        assert forall|k: int| 0 <= k < folders.len() implies {
            &&& (#[trigger] folders[k]).name is Some
            &&& folders[k].contents is Entries
            &&& forall|path: Seq<int>|
                (#[trigger] entry_at(entries_of(folders[k]), path)) matches Some(entry) ==> is_fine(
                    entry,
                )
        } by {
            assert(folder_fault(folders[k]) is None);
            assert forall|path: Seq<int>|
                (#[trigger] entry_at(entries_of(folders[k]), path)) matches Some(
                entry,
            ) implies is_fine(entry_at(entries_of(folders[k]), path)->0) by {
                lemma_entries_without_fault(entries_of(folders[k]), path);
            }
        }
    } else {
        let fault = folders_fault(folders)->0;
        let k = choose|k: int|
            0 <= k < folders.len() && folder_fault(#[trigger] folders[k]) == Some(fault)
                && forall|j: int| 0 <= j < k ==> folder_fault(#[trigger] folders[j]) is None;
        if folders[k].name is Some && folders[k].contents is Entries && forall|path: Seq<int>|
            (#[trigger] entry_at(entries_of(folders[k]), path)) matches Some(entry) ==> is_fine(
                entry,
            ) {
            lemma_all_fine_is_without_fault(entries_of(folders[k]));
        }
    }
}

/// What is wrong with a folder or an entry is told by what was found: that it could not be read, with
/// the reason, before that it has no name, and both before what is below it. Of an entry that is a
/// folder, the name comes first.
pub proof fn lemma_faults_are_told(folder: Folder, entry: Entry)
    ensures
        folder.contents matches Contents::Unreadable(reason) ==> folder_fault(folder) == Some(
            Fault::Unreadable(reason@),
        ),
        folder.contents is Entries && folder.name is None ==> folder_fault(folder) == Some(
            Fault::MissingName,
        ),
        folder.contents is Entries && folder.name is Some ==> folder_fault(folder)
            == entries_fault(entries_of(folder)),
        entry matches Entry::Unreadable(reason) ==> entry_fault(entry) == Some(
            Fault::Unreadable(reason@),
        ),
        entry matches Entry::Folder(inner) ==> entry_fault(entry) == if inner.name is None {
            Some(Fault::MissingName)
        } else {
            folder_fault(inner)
        },
        entry matches Entry::File(file) ==> entry_fault(entry) == if file.name is None {
            Some(Fault::MissingName)
        } else {
            None::<Fault>
        },
{
}

proof fn lemma_tree_of_entry_at(entries: Seq<Entry>, tree: TreeView, path: Seq<int>)
    requires
        tree is Folder,
        tree->children.len() == entries.len(),
        forall|i: int|
            0 <= i < entries.len() ==> #[trigger] tree->children[i] == entry_tree(entries[i]),
        path.len() > 0,
    ensures
        entry_at(entries, path) matches Some(entry) ==> tree_at(tree, path) == Some(
            entry_tree(entry),
        ),
    decreases path.len(),
{
    if 0 <= path[0] < entries.len() {
        let child = tree->children[path[0]];
        assert(child == entry_tree(entries[path[0]]));
        if path.len() == 1 {
            assert(tree_at(child, path.drop_first()) == Some(child));
        } else if let Entry::Folder(folder) = entries[path[0]] {
            assert(child == folder_tree(folder));
            lemma_tree_of_entry_at(entries_of(folder), child, path.drop_first());
        }
        assert(tree_at(tree, path) == tree_at(child, path.drop_first()));
    }
}

proof fn lemma_file_at_is_collected(entries: Seq<Entry>, path: Seq<int>)
    requires
        entry_at(entries, path) matches Some(entry) && entry is File,
    ensures
        entries_files(entries).contains(entry_at(entries, path)->0->File_0),
    decreases path.len(), entries.len(),
{
    let file = entry_at(entries, path)->0->File_0;
    let n = entries.len() - 1;
    let front = entries.subrange(0, n);
    let files = entries_files(front);
    if path[0] < n {
        assert(entry_at(front, path) == entry_at(entries, path));
        lemma_file_at_is_collected(front, path);
        assert(entries_files(entries)[files.index_of(file)] == file);
    } else {
        let last = entry_files(entries[n]);
        if path.len() == 1 {
            assert(last[0] == file);
        } else if let Entry::Folder(folder) = entries[n] {
            lemma_file_at_is_collected(entries_of(folder), path.drop_first());
        }
        assert(entries_files(entries)[files.len() + last.index_of(file)] == file);
    }
}

proof fn lemma_collected_file_is_at(entries: Seq<Entry>, file: FoundFile) -> (path: Seq<int>)
    requires
        entries_files(entries).contains(file),
    ensures
        entry_at(entries, path) == Some(Entry::File(file)),
    decreases entries,
{
    let k = entries_files(entries).index_of(file);
    let n = entries.len() - 1;
    let front = entries.subrange(0, n);
    let files = entries_files(front);
    if k < files.len() {
        assert(files[k] == file);
        let path = lemma_collected_file_is_at(front, file);
        assert(entry_at(entries, path) == entry_at(front, path));
        path
    } else {
        assert(entry_files(entries[n])[k - files.len()] == file);
        match entries[n] {
            Entry::Folder(folder) => {
                assert(decreases_to!(entries => entries[n]));
                assert(decreases_to!(entries[n] => folder));
                assert(decreases_to!(folder => folder.contents));
                assert(decreases_to!(folder.contents => folder.contents->Entries_0));
                assert(decreases_to!(folder.contents->Entries_0 => folder.contents->Entries_0@));
                let inner = lemma_collected_file_is_at(entries_of(folder), file);
                lemma_path_below(entries, n, inner);
                seq![n] + inner
            },
            _ => seq![n],
        }
    }
}

proof fn lemma_files_of_one_folder(folders: Seq<Folder>, file: FoundFile) -> (k: int)
    requires
        folders_files(folders).contains(file),
    ensures
        0 <= k < folders.len(),
        folder_files(folders[k]).contains(file),
    decreases folders.len(),
{
    let i = folders_files(folders).index_of(file);
    let n = folders.len() - 1;
    let files = folders_files(folders.drop_last());
    if i < files.len() {
        assert(files[i] == file);
        lemma_files_of_one_folder(folders.drop_last(), file)
    } else {
        assert(folder_files(folders[n])[i - files.len()] == file);
        n
    }
}

proof fn lemma_one_folder_is_collected(folders: Seq<Folder>, k: int, file: FoundFile)
    requires
        0 <= k < folders.len(),
        folder_files(folders[k]).contains(file),
    ensures
        folders_files(folders).contains(file),
    decreases folders.len(),
{
    let n = folders.len() - 1;
    let files = folders_files(folders.drop_last());
    if k < n {
        lemma_one_folder_is_collected(folders.drop_last(), k, file);
        assert(folders_files(folders)[files.index_of(file)] == file);
    } else {
        let last = folder_files(folders[n]);
        assert(folders_files(folders)[files.len() + last.index_of(file)] == file);
    }
}

/// Every file that was found in a folder that is published, at whatever depth and under whatever
/// name, stands at its place in the tree of the folder, under its name and the hash of the text of
/// its path, and the list of files holds the hash.
pub proof fn lemma_every_file_found_is_published(
    folders: Seq<Folder>,
    k: int,
    path: Seq<int>,
    file: FoundFile,
)
    requires
        folders_fault(folders) is None,
        0 <= k < folders.len(),
        entry_at(entries_of(folders[k]), path) == Some(Entry::File(file)),
    ensures
        file.name is Some,
        tree_at(folders_trees(folders)[k], path) == Some(
            TreeView::File { name: file.name->0@, hash: sha256_text(file.text@) },
        ),
        with_files(Map::empty(), folders_files(folders)).contains_key(sha256_text(file.text@)),
{
    lemma_first_fault_of_folders(folders);
    assert(folder_fault(folders[k]) is None);
    let entries = entries_of(folders[k]);
    lemma_entries_without_fault(entries, path);
    lemma_tree_of_entry_at(entries, folder_tree(folders[k]), path);
    lemma_file_at_is_collected(entries, path);
    lemma_one_folder_is_collected(folders, k, file);
    let files = folders_files(folders);
    assert(files[files.index_of(file)] == file);
    lemma_keys_of_with_files(Map::empty(), files, sha256_text(file.text@));
}

/// A tree is published of each folder, with its name and a child for each of its entries; and every
/// folder below it stands at its place in the tree, so too.
pub proof fn lemma_every_folder_found_is_published(
    folders: Seq<Folder>,
    k: int,
    path: Seq<int>,
    folder: Folder,
)
    requires
        folders_fault(folders) is None,
        0 <= k < folders.len(),
        path.len() == 0 ==> folder == folders[k],
        path.len() > 0 ==> entry_at(entries_of(folders[k]), path) == Some(Entry::Folder(folder)),
    ensures
        folders_trees(folders).len() == folders.len(),
        folder.name is Some,
        tree_at(folders_trees(folders)[k], path) matches Some(TreeView::Folder { name, children })
            && name == folder.name->0@ && children.len() == entries_of(folder).len(),
{
    lemma_first_fault_of_folders(folders);
    assert(folder_fault(folders[k]) is None);
    if path.len() > 0 {
        let entries = entries_of(folders[k]);
        lemma_entries_without_fault(entries, path);
        lemma_tree_of_entry_at(entries, folder_tree(folders[k]), path);
    }
}

/// Whether an entry is a file at a path whose text has a hash.
pub open spec fn is_file_under(
    entry: Option<Entry>,
    hash: Seq<char>,
    path: std::path::PathBuf,
) -> bool {
    entry matches Some(Entry::File(file)) && sha256_text(file.text@) == hash && file.path == path
}

/// Nothing else is published: every hash in the list is that of a file that was found, and the path
/// that it leads to is that of such a file.
pub proof fn lemma_only_files_found_are_published(folders: Seq<Folder>, hash: Seq<char>)
    requires
        with_files(Map::empty(), folders_files(folders)).contains_key(hash),
    ensures
        exists|k: int, path: Seq<int>|
            0 <= k < folders.len() && is_file_under(
                #[trigger] entry_at(entries_of(folders[k]), path),
                hash,
                with_files(Map::empty(), folders_files(folders))[hash],
            ),
{
    let files = folders_files(folders);
    let i = lemma_value_of_with_files(Map::empty(), files, hash);
    let file = files[i];
    let k = lemma_files_of_one_folder(folders, file);
    let path = lemma_collected_file_is_at(entries_of(folders[k]), file);
    assert(entry_at(entries_of(folders[k]), path) == Some(Entry::File(file)));
}

proof fn lemma_value_of_with_files(
    list: Map<Seq<char>, std::path::PathBuf>,
    files: Seq<FoundFile>,
    hash: Seq<char>,
) -> (i: int)
    requires
        with_files(list, files).contains_key(hash),
        !list.contains_key(hash),
    ensures
        0 <= i < files.len(),
        sha256_text(files[i].text@) == hash,
        files[i].path == with_files(list, files)[hash],
    decreases files.len(),
{
    let n = files.len() - 1;
    if sha256_text(files.last().text@) == hash {
        n
    } else {
        lemma_value_of_with_files(list, files.drop_last(), hash)
    }
}

proof fn lemma_with_files_leaves_others(
    list: Map<Seq<char>, std::path::PathBuf>,
    files: Seq<FoundFile>,
    hash: Seq<char>,
)
    requires
        forall|i: int| 0 <= i < files.len() ==> sha256_text((#[trigger] files[i]).text@) != hash,
    ensures
        with_files(list, files).contains_key(hash) <==> list.contains_key(hash),
        list.contains_key(hash) ==> with_files(list, files)[hash] == list[hash],
    decreases files.len(),
{
    if files.len() > 0 {
        let front = files.drop_last();
        assert(files.last() == files[files.len() - 1]);
        assert forall|i: int| 0 <= i < front.len() implies sha256_text((#[trigger] front[i]).text@)
            != hash by {
            assert(front[i] == files[i]);
        }
        lemma_with_files_leaves_others(list, front, hash);
    }
}

proof fn lemma_entries_files_split(entries: Seq<Entry>, m: int)
    requires
        0 <= m <= entries.len(),
    ensures
        entries_files(entries) == entries_files(entries.subrange(0, m)) + entries_files(
            entries.subrange(m, entries.len() as int),
        ),
    decreases entries.len(),
{
    let rest = entries.subrange(m, entries.len() as int);
    if m == entries.len() {
        assert(entries.subrange(0, m) =~= entries);
        assert(entries_files(entries) =~= entries_files(entries) + entries_files(rest));
    } else {
        let n = entries.len() - 1;
        let front = entries.subrange(0, n);
        lemma_entries_files_split(front, m);
        assert(front.subrange(0, m) =~= entries.subrange(0, m));
        assert(front.subrange(m, n) =~= rest.subrange(0, rest.len() - 1));
        assert(entries_files(entries) =~= entries_files(entries.subrange(0, m)) + entries_files(
            rest,
        ));
    }
}

proof fn lemma_last_file_of_entries(
    list: Map<Seq<char>, std::path::PathBuf>,
    entries: Seq<Entry>,
    path: Seq<int>,
    file: FoundFile,
)
    requires
        entry_at(entries, path) == Some(Entry::File(file)),
        forall|later: Seq<int>|
            (#[trigger] entry_at(entries, later)) matches Some(Entry::File(other)) ==> precedes(
                path,
                later,
            ) ==> sha256_text(other.text@) != sha256_text(file.text@),
    ensures
        with_files(list, entries_files(entries)).contains_key(sha256_text(file.text@)),
        with_files(list, entries_files(entries))[sha256_text(file.text@)] == file.path,
    decreases path.len(),
{
    let hash = sha256_text(file.text@);
    let i = path[0];
    let total = entries.len() as int;
    let upto = entries.subrange(0, i + 1);
    let rest = entries.subrange(i + 1, total);
    let first = entries_files(entries.subrange(0, i));
    let own = entry_files(entries[i]);
    lemma_entries_files_split(entries, i + 1);
    assert(upto.subrange(0, i) =~= entries.subrange(0, i));
    assert(entries_files(upto) == first + own);
    lemma_with_files_appended(list, entries_files(upto), entries_files(rest));
    lemma_with_files_appended(list, first, own);
    let before = with_files(list, first);
    let files = entries_files(rest);
    assert forall|j: int| 0 <= j < files.len() implies sha256_text((#[trigger] files[j]).text@)
        != hash by {
        let other = files[j];
        assert(files.contains(other));
        let inner = lemma_collected_file_is_at(rest, other);
        let later = seq![inner[0] + i + 1] + inner.drop_first();
        assert(later.drop_first() =~= inner.drop_first());
        assert(rest[inner[0]] == entries[inner[0] + i + 1]);
        assert(entry_at(entries, later) == Some(Entry::File(other)));
        assert(precedes(path, later));
    }
    if path.len() == 1 {
        assert(own =~= seq![file]);
        assert(own.drop_last() =~= Seq::<FoundFile>::empty());
        assert(with_files(before, own.drop_last()) == before);
    } else if let Entry::Folder(folder) = entries[i] {
        let inner = entries_of(folder);
        let below = path.drop_first();
        assert forall|later: Seq<int>|
            (#[trigger] entry_at(inner, later)) matches Some(Entry::File(other)) && precedes(
                below,
                later,
            ) implies sha256_text(entry_at(inner, later)->0->File_0.text@) != hash by {
            lemma_path_below(entries, i, later);
            assert((seq![i] + later).drop_first() =~= later);
            assert(precedes(path, seq![i] + later));
        }
        lemma_last_file_of_entries(before, inner, below, file);
    }
    lemma_with_files_leaves_others(with_files(before, own), files, hash);
}

/// The hash of a file that was found leads to its path, unless a file with the same hash was found
/// after it: further down in the same folder or in a later one.
pub proof fn lemma_hash_leads_to_the_file_found_last(
    folders: Seq<Folder>,
    k: int,
    path: Seq<int>,
    file: FoundFile,
)
    requires
        0 <= k < folders.len(),
        entry_at(entries_of(folders[k]), path) == Some(Entry::File(file)),
        forall|later: int, other: Seq<int>|
            k <= later < folders.len() && (later == k ==> precedes(path, other)) ==> ((
            #[trigger] entry_at(entries_of(folders[later]), other)) matches Some(Entry::File(found))
                ==> sha256_text(found.text@) != sha256_text(file.text@)),
    ensures
        with_files(Map::empty(), folders_files(folders)).contains_key(sha256_text(file.text@)),
        with_files(Map::empty(), folders_files(folders))[sha256_text(file.text@)] == file.path,
    decreases folders.len(),
{
    let hash = sha256_text(file.text@);
    let n = folders.len() - 1;
    let front = folders.drop_last();
    let last = entries_of(folders[n]);
    assert(folder_files(folders[n]) =~= entries_files(last));
    lemma_with_files_appended(Map::empty(), folders_files(front), entries_files(last));
    let before = with_files(Map::empty(), folders_files(front));
    if k == n {
        lemma_last_file_of_entries(before, last, path, file);
    } else {
        assert forall|later: int, other: Seq<int>|
            k <= later < front.len() && (later == k ==> precedes(path, other)) implies ((
        #[trigger] entry_at(entries_of(front[later]), other)) matches Some(Entry::File(found))
            ==> sha256_text(found.text@) != hash) by {
            assert(front[later] == folders[later]);
            assert(entry_at(entries_of(folders[later]), other) == entry_at(
                entries_of(front[later]),
                other,
            ));
        }
        assert(front[k] == folders[k]);
        lemma_hash_leads_to_the_file_found_last(front, k, path, file);
        let files = entries_files(last);
        assert forall|j: int| 0 <= j < files.len() implies sha256_text((#[trigger] files[j]).text@)
            != hash by {
            assert(files.contains(files[j]));
            let other = lemma_collected_file_is_at(last, files[j]);
            assert(entry_at(entries_of(folders[n]), other) == Some(Entry::File(files[j])));
        }
        lemma_with_files_leaves_others(before, files, hash);
    }
}

/// The hashes of a list of files are its keys, all of them, and each of them once.
pub proof fn lemma_hashes_are_the_keys(
    hashes: Seq<String>,
    paths: Map<Seq<char>, std::path::PathBuf>,
    hash: Seq<char>,
)
    requires
        lists_keys(hashes, paths),
    ensures
        paths.contains_key(hash) <==> exists|i: int|
            0 <= i < hashes.len() && (#[trigger] hashes[i])@ == hash,
        forall|i: int, j: int|
            0 <= i < hashes.len() && 0 <= j < hashes.len() && (#[trigger] hashes[i])@ == (
            #[trigger] hashes[j])@ ==> i == j,
{
}

} // verus!
