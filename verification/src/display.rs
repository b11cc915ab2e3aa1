//! Showing trees as rows: which rows there are, and which file is chosen by a click.

use crate::download::{DownloadHeader, HeaderView, entries, values};
use crate::stamp::Stamp;
use crate::tree::{FileTree, TreeView, forest, listed_files, listed_in_forest};
use indexmap::IndexMap;
use vstd::prelude::*;

verus! {

/// How far a download has come.
#[derive(Clone, Copy, Debug, PartialEq, Eq, Structural)]
pub struct Progress {
    /// The packets that have come in.
    pub received: usize,
    /// The packets that were announced.
    pub announced: u64,
    /// The bytes that were written.
    pub arrived_bytes: usize,
    /// When the download began.
    pub started: Stamp,
}

/// A row of the display. The rows of what a folder holds follow it; `size` counts them.
pub enum Row {
    Folder { name: String, size: usize },
    File { name: String, hash: String, progress: Option<Progress> },
    Empty,
}

/// The mathematical value of a [`Row`].
#[verifier::ext_equal]
pub enum RowView {
    Folder { name: Seq<char>, size: nat },
    File { name: Seq<char>, hash: Seq<char>, progress: Option<Progress> },
    Empty,
}

impl View for Row {
    type V = RowView;

    open spec fn view(&self) -> RowView {
        match self {
            Row::Folder { name, size } => RowView::Folder { name: name@, size: *size as nat },
            Row::File { name, hash, progress } => RowView::File {
                name: name@,
                hash: hash@,
                progress: *progress,
            },
            Row::Empty => RowView::Empty,
        }
    }
}

/// The values of rows, in order.
pub open spec fn row_views(rows: Seq<Row>) -> Seq<RowView> {
    Seq::new(rows.len(), |i: int| rows[i]@)
}

/// The values of downloads, in order.
pub open spec fn header_views(headers: Seq<&DownloadHeader>) -> Seq<HeaderView> {
    Seq::new(headers.len(), |i: int| headers[i]@)
}

/// The downloads of a list, in order.
pub open spec fn downloads(list: IndexMap<String, DownloadHeader>) -> Seq<HeaderView> {
    Seq::new(entries(list).len(), |i: int| entries(list)[i].1)
}

/// How far a download has come.
pub open spec fn progress_of(header: HeaderView) -> Progress {
    Progress {
        received: header.packets.len() as usize,
        announced: header.response.packet_count,
        arrived_bytes: header.arrived_bytes,
        started: header.started,
    }
}

/// How far the first download of the file with a hash has come.
pub open spec fn progress_of_file(headers: Seq<HeaderView>, hash: Seq<char>) -> Option<Progress>
    decreases headers.len(),
{
    if headers.len() == 0 {
        None
    } else if headers[0].response.file_hash == hash {
        Some(progress_of(headers[0]))
    } else {
        progress_of_file(headers.drop_first(), hash)
    }
}

/// The rows of a tree. A file shows how far its download has come.
pub open spec fn tree_rows(tree: TreeView, headers: Seq<HeaderView>) -> Seq<RowView>
    decreases tree,
{
    match tree {
        TreeView::Folder { name, children } => {
            let inner = forest_rows(children, headers);
            seq![RowView::Folder { name, size: inner.len() }] + inner
        },
        TreeView::File { name, hash } => seq![
            RowView::File { name, hash, progress: progress_of_file(headers, hash) },
        ],
        TreeView::Empty => seq![RowView::Empty],
    }
}

/// The rows of several trees, one after the other.
pub open spec fn forest_rows(trees: Seq<TreeView>, headers: Seq<HeaderView>) -> Seq<RowView>
    decreases trees,
{
    if trees.len() == 0 {
        Seq::empty()
    } else {
        forest_rows(trees.subrange(0, trees.len() - 1), headers) + tree_rows(
            trees[trees.len() - 1],
            headers,
        )
    }
}

/// How many of the outermost trees are shown: none behind the first that is a file.
pub open spec fn shown_count(trees: Seq<TreeView>) -> nat
    decreases trees.len(),
{
    if trees.len() == 0 {
        0
    } else if trees[0] is File {
        1
    } else {
        1 + shown_count(trees.drop_first())
    }
}

/// The rows that the outermost trees are shown in.
pub open spec fn shown_rows(trees: Seq<TreeView>, headers: Seq<HeaderView>) -> Seq<RowView> {
    forest_rows(trees.subrange(0, shown_count(trees) as int), headers)
}

/// The first row behind a row and what it holds.
pub open spec fn end_of_row(rows: Seq<RowView>, i: int) -> int {
    match rows[i] {
        RowView::Folder { name, size } => i + 1 + size,
        _ => i + 1,
    }
}

/// Whether each row ends within the row that holds it, and within the rows.
pub open spec fn nested(rows: Seq<RowView>) -> bool {
    &&& forall|i: int| 0 <= i < rows.len() ==> #[trigger] end_of_row(rows, i) <= rows.len()
    &&& forall|i: int, j: int|
        #![trigger end_of_row(rows, i), end_of_row(rows, j)]
        0 <= i < j < end_of_row(rows, i) && j < rows.len() ==> end_of_row(rows, j) <= end_of_row(
            rows,
            i,
        )
}

/// The answer that a row got: that a folder is open, or that a file was clicked. A row without an
/// answer got no.
pub open spec fn answered(answers: Seq<bool>, i: int) -> bool {
    0 <= i < answers.len() && answers[i]
}

/// Whether every folder that holds a row is open.
pub open spec fn on_display(rows: Seq<RowView>, answers: Seq<bool>, i: int) -> bool {
    forall|j: int|
        0 <= j < i && i < #[trigger] end_of_row(rows, j) ==> answered(answers, j)
}

/// Whether a row is a file on display that was clicked.
pub open spec fn is_hit(rows: Seq<RowView>, answers: Seq<bool>, i: int) -> bool {
    0 <= i < rows.len() && rows[i] is File && answered(answers, i) && on_display(rows, answers, i)
}

/// The hash and the name of the first file on display that was clicked.
pub open spec fn chosen_file(rows: Seq<RowView>, answers: Seq<bool>) -> Option<
    (Seq<char>, Seq<char>),
> {
    if exists|i: int| is_hit(rows, answers, i) {
        let i = choose|i: int|
            #![trigger rows[i]]
            is_hit(rows, answers, i) && forall|j: int| j < i ==> !is_hit(rows, answers, j);
        Some((rows[i]->hash, rows[i]->File_name))
    } else {
        None
    }
}

/// The pair of strings as a value.
pub open spec fn pair_view(pair: Option<(String, String)>) -> Option<(Seq<char>, Seq<char>)> {
    match pair {
        Some((hash, name)) => Some((hash@, name@)),
        None => None,
    }
}

proof fn lemma_nested_append(first: Seq<RowView>, second: Seq<RowView>)
    requires
        nested(first),
        nested(second),
    ensures
        nested(first + second),
{
    let rows = first + second;
    let n = first.len() as int;
    assert forall|i: int| 0 <= i < rows.len() implies #[trigger] end_of_row(rows, i) == if i < n {
        end_of_row(first, i)
    } else {
        n + end_of_row(second, i - n)
    } by {}
}

proof fn lemma_tree_rows_nested(tree: TreeView, headers: Seq<HeaderView>)
    ensures
        nested(tree_rows(tree, headers)),
    decreases tree,
{
    if let TreeView::Folder { name, children } = tree {
        lemma_forest_rows_nested(children, headers);
        let inner = forest_rows(children, headers);
        let rows = tree_rows(tree, headers);
        assert forall|i: int| 0 <= i < rows.len() implies #[trigger] end_of_row(rows, i) == if i
            == 0 {
            rows.len() as int
        } else {
            1 + end_of_row(inner, i - 1)
        } by {}
    }
}

proof fn lemma_forest_rows_nested(trees: Seq<TreeView>, headers: Seq<HeaderView>)
    ensures
        nested(forest_rows(trees, headers)),
    decreases trees,
{
    if trees.len() > 0 {
        let n = trees.len() - 1;
        lemma_forest_rows_nested(trees.subrange(0, n), headers);
        lemma_tree_rows_nested(trees[n], headers);
        lemma_nested_append(
            forest_rows(trees.subrange(0, n), headers),
            tree_rows(trees[n], headers),
        );
    }
}

/// How far the first download of the file with a hash has come.
fn file_progress(headers: &Vec<&DownloadHeader>, hash: &String) -> (progress: Option<Progress>)
    ensures
        progress == progress_of_file(header_views(headers@), hash@),
{
    let ghost views = header_views(headers@);
    let mut i: usize = 0;
    assert(views.skip(0) =~= views);
    while i < headers.len()
        invariant
            i <= headers.len(),
            views == header_views(headers@),
            progress_of_file(views, hash@) == progress_of_file(views.skip(i as int), hash@),
        decreases headers.len() - i,
    {
        assert(views.skip(i as int).drop_first() =~= views.skip(i + 1));
        if headers[i].file_response.file_hash == *hash {
            return Some(
                Progress {
                    received: headers[i].packet_list.len(),
                    announced: headers[i].file_response.file_packet_count,
                    arrived_bytes: headers[i].arrived_bytes,
                    started: headers[i].initiated_stamp,
                },
            );
        }
        i += 1;
    }
    None
}

/// Appends the rows of a tree to others.
fn push_tree_rows(tree: &FileTree, headers: &Vec<&DownloadHeader>, rows: &mut Vec<Row>)
    ensures
        row_views(final(rows)@) == row_views(old(rows)@) + tree_rows(
            tree@,
            header_views(headers@),
        ),
    decreases tree,
{
    let ghost before = row_views(rows@);
    let ghost views = header_views(headers@);
    match tree {
        FileTree::Folder(folder) => {
            let start: usize = rows.len();
            rows.push(Row::Empty);
            let ghost children = tree@->children;
            assert(children.subrange(0, 0) =~= Seq::<TreeView>::empty());
            assert(row_views(rows@) =~= before + seq![RowView::Empty] + forest_rows(
                children.subrange(0, 0),
                views,
            ));
            let mut i: usize = 0;
            while i < folder.1.len()
                invariant
                    i <= folder.1.len(),
                    tree is Folder,
                    tree->Folder_0 == *folder,
                    children == tree@->children,
                    views == header_views(headers@),
                    row_views(rows@) == before + seq![RowView::Empty] + forest_rows(
                        children.subrange(0, i as int),
                        views,
                    ),
                decreases folder.1.len() - i,
            {
                assert(decreases_to!(tree => tree->Folder_0));
                assert(decreases_to!(tree->Folder_0 => folder.1));
                assert(decreases_to!(folder.1 => folder.1[i as int]));
                push_tree_rows(&folder.1[i], headers, rows);
                assert(children.subrange(0, i + 1).subrange(0, i as int) =~= children.subrange(
                    0,
                    i as int,
                ));
                i += 1;
            }
            assert(children.subrange(0, i as int) =~= children);
            let ghost inner = forest_rows(children, views);
            assert(row_views(rows@).len() == before.len() + 1 + inner.len());
            let size: usize = rows.len() - start - 1;
            let ghost filled = row_views(rows@);
            rows.set(start, Row::Folder { name: folder.0.clone(), size });
            let ghost head = RowView::Folder { name: folder.0@, size: inner.len() };
            assert(row_views(rows@) =~= filled.update(start as int, head));
            assert(tree_rows(tree@, views) == seq![head] + inner);
            assert(row_views(rows@) =~= before + tree_rows(tree@, views));
        },
        FileTree::File(file) => {
            let progress = file_progress(headers, &file.1);
            rows.push(Row::File { name: file.0.clone(), hash: file.1.clone(), progress });
            assert(row_views(rows@) =~= before + tree_rows(tree@, views));
        },
        FileTree::Empty => {
            rows.push(Row::Empty);
            assert(row_views(rows@) =~= before + tree_rows(tree@, views));
        },
    }
}

proof fn lemma_shown_count_of_prefix(trees: Seq<TreeView>, n: int)
    requires
        0 <= n <= trees.len(),
        forall|i: int| 0 <= i < n ==> !(#[trigger] trees[i] is File),
    ensures
        shown_count(trees) == n + shown_count(trees.skip(n)),
    decreases n,
{
    if n == 0 {
        assert(trees.skip(0) =~= trees);
    } else {
        lemma_shown_count_of_prefix(trees.drop_first(), n - 1);
        assert(trees.drop_first().skip(n - 1) =~= trees.skip(n));
    }
}

/// The rows that trees are shown in, with the downloads that are under way.
pub fn display_rows(
    file_trees: &Vec<FileTree>,
    download_list: &IndexMap<String, DownloadHeader>,
) -> (rows: Vec<Row>)
    ensures
        row_views(rows@) == shown_rows(forest(file_trees@), downloads(*download_list)),
{
    let headers = values(download_list);
    let ghost trees = forest(file_trees@);
    let ghost views = header_views(headers@);
    assert(views =~= downloads(*download_list));
    let mut rows: Vec<Row> = Vec::new();
    assert(trees.subrange(0, 0) =~= Seq::<TreeView>::empty());
    assert(row_views(rows@) =~= forest_rows(trees.subrange(0, 0), views));
    let mut i: usize = 0;
    while i < file_trees.len()
        invariant
            i <= file_trees.len(),
            trees == forest(file_trees@),
            views == header_views(headers@),
            views == downloads(*download_list),
            row_views(rows@) == forest_rows(trees.subrange(0, i as int), views),
            forall|j: int| 0 <= j < i ==> !(#[trigger] trees[j] is File),
        decreases file_trees.len() - i,
    {
        push_tree_rows(&file_trees[i], &headers, &mut rows);
        assert(trees.subrange(0, i + 1).subrange(0, i as int) =~= trees.subrange(0, i as int));
        if let FileTree::File(_) = &file_trees[i] {
            proof {
                lemma_shown_count_of_prefix(trees, i as int);
                assert(trees[i as int] is File);
            }
            return rows;
        }
        assert(!(trees[i as int] is File));
        i += 1;
    }
    proof {
        lemma_shown_count_of_prefix(trees, i as int);
    }
    rows
}

/// A display of trees while its rows are shown one by one, each of which gets an answer.
pub struct TreeDisplay {
    rows: Vec<Row>,
    at: usize,
}

impl TreeDisplay {
    #[verifier::type_invariant]
    spec fn well_formed(self) -> bool {
        nested(row_views(self.rows@)) && self.at <= self.rows@.len()
    }

    /// Every row, from top to bottom.
    pub closed spec fn rows(self) -> Seq<RowView> {
        row_views(self.rows@)
    }

    /// The row that is to be shown next.
    pub closed spec fn at(self) -> int {
        self.at as int
    }

    /// A display of trees, with the downloads that are under way, before its first row.
    pub fn new(
        file_trees: &Vec<FileTree>,
        download_list: &IndexMap<String, DownloadHeader>,
    ) -> (display: TreeDisplay)
        ensures
            display.rows() == shown_rows(forest(file_trees@), downloads(*download_list)),
            nested(display.rows()),
            display.at() == 0,
    {
        let rows = display_rows(file_trees, download_list);
        proof {
            lemma_forest_rows_nested(
                forest(file_trees@).subrange(0, shown_count(forest(file_trees@)) as int),
                downloads(*download_list),
            );
        }
        TreeDisplay { rows, at: 0 }
    }

    /// The row that is to be shown next, until none is left.
    pub fn row(&self) -> (row: Option<&Row>)
        ensures
            match row {
                Some(row) => self.at() < self.rows().len() && row@ == self.rows()[self.at()],
                None => self.at() == self.rows().len(),
            },
    {
        proof {
            use_type_invariant(self);
        }
        if self.at < self.rows.len() {
            Some(&self.rows[self.at])
        } else {
            None
        }
    }

    /// Where the row that is to be shown next stands among the rows.
    pub fn index(&self) -> (index: usize)
        ensures
            index == self.at(),
    {
        self.at
    }

    /// Takes the answer to the row that was shown: whether a folder is open, or whether a file was
    /// clicked. A closed folder is passed over with what it holds. A clicked file is returned, its
    /// hash before its name, and ends the display.
    pub fn answer(&mut self, yes: bool) -> (chosen: Option<(String, String)>)
        ensures
            final(self).rows() == old(self).rows(),
            nested(final(self).rows()),
            old(self).at() == old(self).rows().len() ==> chosen is None && final(self).at()
                == old(self).at(),
            old(self).at() < old(self).rows().len() ==> match old(self).rows()[old(self).at()] {
                RowView::Folder { name, size } => chosen is None && final(self).at() == if yes {
                    old(self).at() + 1
                } else {
                    end_of_row(old(self).rows(), old(self).at())
                },
                RowView::File { name, hash, progress } => if yes {
                    pair_view(chosen) == Some((hash, name)) && final(self).at()
                        == old(self).rows().len()
                } else {
                    chosen is None && final(self).at() == old(self).at() + 1
                },
                RowView::Empty => chosen is None && final(self).at() == old(self).at() + 1,
            },
            old(self).at() < old(self).rows().len() && !yes ==> (old(self).rows()[old(self).at()]
                matches RowView::Folder { name, size } ==> final(self).at() == old(self).at() + 1
                + size),
            0 <= old(self).at() <= old(self).rows().len(),
            0 <= final(self).at() <= final(self).rows().len(),
    {
        proof {
            use_type_invariant(&*self);
        }
        if self.at >= self.rows.len() {
            return None;
        }
        let ghost views = row_views(self.rows@);
        let ghost here = self.at as int;
        assert(end_of_row(views, here) <= views.len());
        let total: usize = self.rows.len();
        let (next, chosen): (usize, Option<(String, String)>) = match &self.rows[self.at] {
            Row::Folder { name, size } => (
                if yes {
                    self.at + 1
                } else {
                    self.at + 1 + *size
                },
                None,
            ),
            Row::File { name, hash, progress } => if yes {
                (total, Some((hash.clone(), name.clone())))
            } else {
                (self.at + 1, None)
            },
            Row::Empty => (self.at + 1, None),
        };
        self.at = next;
        chosen
    }
}

proof fn lemma_chosen_is_first_hit(rows: Seq<RowView>, answers: Seq<bool>, i: int)
    requires
        is_hit(rows, answers, i),
        forall|j: int| j < i ==> !is_hit(rows, answers, j),
    ensures
        chosen_file(rows, answers) == Some((rows[i]->hash, rows[i]->File_name)),
{
    let first = choose|i: int|
        #![trigger rows[i]]
        is_hit(rows, answers, i) && forall|j: int| j < i ==> !is_hit(rows, answers, j);
    assert(rows[i] == rows[i]);
    assert(!(first < i) && !(i < first));
}

/// Shows trees, with the downloads that are under way, and returns the hash and the name of the
/// file that is clicked, if any. `answers` holds what each row answers when it is shown: whether a
/// folder is open, or whether a file is clicked.
pub fn display_file_tree(
    file_trees: &Vec<FileTree>,
    download_list: &IndexMap<String, DownloadHeader>,
    answers: &Vec<bool>,
) -> (chosen: Option<(String, String)>)
    ensures
        pair_view(chosen) == chosen_file(
            shown_rows(forest(file_trees@), downloads(*download_list)),
            answers@,
        ),
{
    let mut display = TreeDisplay::new(file_trees, download_list);
    let ghost rows = display.rows();
    loop
        invariant
            display.rows() == rows,
            nested(rows),
            rows == shown_rows(forest(file_trees@), downloads(*download_list)),
            0 <= display.at() <= rows.len(),
            forall|i: int| i < display.at() ==> !is_hit(rows, answers@, i),
            on_display(rows, answers@, display.at()),
        decreases rows.len() - display.at(),
    {
        let ghost at = display.at();
        if display.row().is_none() {
            return None;
        }
        let index = display.index();
        let yes = index < answers.len() && answers[index];
        assert(yes == answered(answers@, at));
        assert(end_of_row(rows, at) <= rows.len());
        let chosen = display.answer(yes);
        if chosen.is_some() {
            proof {
                lemma_chosen_is_first_hit(rows, answers@, at);
            }
            return chosen;
        }
        proof {
            assert forall|i: int| i < display.at() implies !is_hit(rows, answers@, i) by {
                if at < i {
                    assert(i < end_of_row(rows, at));
                }
            }
            assert forall|j: int|
                0 <= j < display.at() && display.at() < #[trigger] end_of_row(
                    rows,
                    j,
                ) implies answered(answers@, j) by {
                if j > at {
                    assert(end_of_row(rows, j) <= end_of_row(rows, at));
                }
            }
        }
    }
}

proof fn lemma_file_row_of_tree_is_listed(tree: TreeView, headers: Seq<HeaderView>, i: int)
    requires
        0 <= i < tree_rows(tree, headers).len(),
        tree_rows(tree, headers)[i] is File,
    ensures
        listed_files(tree).contains(
            (tree_rows(tree, headers)[i]->hash, tree_rows(tree, headers)[i]->File_name),
        ),
    decreases tree,
{
    match tree {
        TreeView::Folder { name, children } => {
            lemma_file_row_is_listed(children, headers, i - 1);
        },
        TreeView::File { name, hash } => {
            assert(listed_files(tree)[0] == (hash, name));
        },
        TreeView::Empty => {},
    }
}

proof fn lemma_file_row_is_listed(trees: Seq<TreeView>, headers: Seq<HeaderView>, i: int)
    requires
        0 <= i < forest_rows(trees, headers).len(),
        forest_rows(trees, headers)[i] is File,
    ensures
        listed_in_forest(trees).contains(
            (forest_rows(trees, headers)[i]->hash, forest_rows(trees, headers)[i]->File_name),
        ),
    decreases trees,
{
    if trees.len() > 0 {
        let n = trees.len() - 1;
        let front = trees.subrange(0, n);
        let rows = forest_rows(front, headers);
        let listing = listed_in_forest(front);
        let pair = (
            forest_rows(trees, headers)[i]->hash,
            forest_rows(trees, headers)[i]->File_name,
        );
        if i < rows.len() {
            lemma_file_row_is_listed(front, headers, i);
            let k = listing.index_of(pair);
            assert(listed_in_forest(trees)[k] == pair);
        } else {
            lemma_file_row_of_tree_is_listed(trees[n], headers, i - rows.len());
            let k = listed_files(trees[n]).index_of(pair);
            assert(listed_in_forest(trees)[listing.len() + k] == pair);
        }
    }
}

proof fn lemma_listed_in_prefix(trees: Seq<TreeView>, n: int, pair: (Seq<char>, Seq<char>))
    requires
        0 <= n <= trees.len(),
        listed_in_forest(trees.subrange(0, n)).contains(pair),
    ensures
        listed_in_forest(trees).contains(pair),
    decreases trees.len() - n,
{
    if n == trees.len() {
        assert(trees.subrange(0, n) =~= trees);
    } else {
        let shorter = listed_in_forest(trees.subrange(0, n));
        assert(trees.subrange(0, n + 1).subrange(0, n) =~= trees.subrange(0, n));
        assert(listed_in_forest(trees.subrange(0, n + 1))[shorter.index_of(pair)] == pair);
        lemma_listed_in_prefix(trees, n + 1, pair);
    }
}

proof fn lemma_shown_count_in_range(trees: Seq<TreeView>)
    ensures
        shown_count(trees) <= trees.len(),
    decreases trees.len(),
{
    if trees.len() > 0 {
        lemma_shown_count_in_range(trees.drop_first());
    }
}

/// A file that is chosen is one that the trees list, under its hash and its name.
pub proof fn lemma_chosen_file_is_listed(
    trees: Seq<TreeView>,
    headers: Seq<HeaderView>,
    answers: Seq<bool>,
)
    ensures
        chosen_file(shown_rows(trees, headers), answers) matches Some(pair) ==> listed_in_forest(
            trees,
        ).contains(pair),
{
    let rows = shown_rows(trees, headers);
    if exists|i: int| is_hit(rows, answers, i) {
        let i = choose|i: int| is_hit(rows, answers, i);
        let first = lemma_first_hit(rows, answers, i);
        lemma_chosen_is_first_hit(rows, answers, first);
        lemma_shown_count_in_range(trees);
        let n = shown_count(trees) as int;
        lemma_file_row_is_listed(trees.subrange(0, n), headers, first);
        lemma_listed_in_prefix(trees, n, (rows[first]->hash, rows[first]->File_name));
    }
}

proof fn lemma_first_hit(rows: Seq<RowView>, answers: Seq<bool>, i: int) -> (first: int)
    requires
        is_hit(rows, answers, i),
    ensures
        is_hit(rows, answers, first),
        forall|j: int| j < first ==> !is_hit(rows, answers, j),
    decreases i,
{
    if exists|j: int| j < i && is_hit(rows, answers, j) {
        let j = choose|j: int| j < i && is_hit(rows, answers, j);
        lemma_first_hit(rows, answers, j)
    } else {
        i
    }
}

/// Every file that has a row can be chosen: where all folders are open and it alone is clicked,
/// it is the one.
pub proof fn lemma_every_shown_file_can_be_chosen(
    trees: Seq<TreeView>,
    headers: Seq<HeaderView>,
    i: int,
)
    requires
        0 <= i < shown_rows(trees, headers).len(),
        shown_rows(trees, headers)[i] is File,
    ensures
        ({
            let rows = shown_rows(trees, headers);
            let answers = Seq::new(rows.len(), |j: int| rows[j] is Folder || j == i);
            chosen_file(rows, answers) == Some((rows[i]->hash, rows[i]->File_name))
        }),
{
    let rows = shown_rows(trees, headers);
    let answers = Seq::new(rows.len(), |j: int| rows[j] is Folder || j == i);
    assert(is_hit(rows, answers, i));
    lemma_chosen_is_first_hit(rows, answers, i);
}

/// Whether a row is the file with a hash and a name.
pub open spec fn is_row_of(row: RowView, pair: (Seq<char>, Seq<char>)) -> bool {
    row is File && row->hash == pair.0 && row->File_name == pair.1
}

proof fn lemma_listed_file_of_tree_has_row(
    tree: TreeView,
    headers: Seq<HeaderView>,
    pair: (Seq<char>, Seq<char>),
) -> (i: int)
    requires
        listed_files(tree).contains(pair),
    ensures
        0 <= i < tree_rows(tree, headers).len(),
        is_row_of(tree_rows(tree, headers)[i], pair),
    decreases tree,
{
    match tree {
        TreeView::Folder { name, children } => {
            1 + lemma_listed_file_has_row(children, headers, pair)
        },
        _ => 0,
    }
}

proof fn lemma_listed_file_has_row(
    trees: Seq<TreeView>,
    headers: Seq<HeaderView>,
    pair: (Seq<char>, Seq<char>),
) -> (i: int)
    requires
        listed_in_forest(trees).contains(pair),
    ensures
        0 <= i < forest_rows(trees, headers).len(),
        is_row_of(forest_rows(trees, headers)[i], pair),
    decreases trees,
{
    let k = listed_in_forest(trees).index_of(pair);
    let n = trees.len() - 1;
    let front = trees.subrange(0, n);
    let listing = listed_in_forest(front);
    if k < listing.len() {
        assert(listing[k] == pair);
        lemma_listed_file_has_row(front, headers, pair)
    } else {
        assert(listed_files(trees[n])[k - listing.len()] == pair);
        forest_rows(front, headers).len() + lemma_listed_file_of_tree_has_row(
            trees[n],
            headers,
            pair,
        )
    }
}

/// Every file that trees list has a row, where no file stands among the outermost trees: so it
/// is with the trees of published folders.
pub proof fn lemma_every_listed_file_is_shown(
    trees: Seq<TreeView>,
    headers: Seq<HeaderView>,
    pair: (Seq<char>, Seq<char>),
)
    requires
        forall|i: int| 0 <= i < trees.len() ==> !(#[trigger] trees[i] is File),
        listed_in_forest(trees).contains(pair),
    ensures
        exists|i: int|
            0 <= i < shown_rows(trees, headers).len() && is_row_of(
                #[trigger] shown_rows(trees, headers)[i],
                pair,
            ),
{
    lemma_shown_count_of_prefix(trees, trees.len() as int);
    assert(trees.subrange(0, shown_count(trees) as int) =~= trees);
    let i = lemma_listed_file_has_row(trees, headers, pair);
    assert(is_row_of(shown_rows(trees, headers)[i], pair));
}

/// The value of a row is made of all that it shows.
pub proof fn lemma_value_of_a_row(row: Row)
    ensures
        match row {
            Row::Folder { name, size } => row@ == (RowView::Folder {
                name: name@,
                size: size as nat,
            }),
            Row::File { name, hash, progress } => row@ == (RowView::File {
                name: name@,
                hash: hash@,
                progress,
            }),
            Row::Empty => row@ is Empty,
        },
{
}

/// The values of rows, of a pair of strings and of the downloads of a list leave nothing out.
pub proof fn lemma_values_on_display(
    rows: Seq<Row>,
    list: IndexMap<String, DownloadHeader>,
    hash: String,
    name: String,
    i: int,
)
    ensures
        row_views(rows).len() == rows.len(),
        0 <= i < rows.len() ==> row_views(rows)[i] == rows[i]@,
        downloads(list).len() == entries(list).len(),
        0 <= i < entries(list).len() ==> downloads(list)[i] == entries(list)[i].1,
        pair_view(Some((hash, name))) == Some((hash@, name@)),
        pair_view(None) is None,
{
}

/// Whether a download is the first of a list that is of the file with a hash.
pub open spec fn is_first_download(headers: Seq<HeaderView>, hash: Seq<char>, k: int) -> bool {
    &&& 0 <= k < headers.len()
    &&& headers[k].response.file_hash == hash
    &&& forall|j: int| 0 <= j < k ==> (#[trigger] headers[j]).response.file_hash != hash
}

/// Whether no download of a list is of the file with a hash.
pub open spec fn has_no_download(headers: Seq<HeaderView>, hash: Seq<char>) -> bool {
    forall|j: int| 0 <= j < headers.len() ==> (#[trigger] headers[j]).response.file_hash != hash
}

/// A file shows how far the first download of it has come, at whatever place of the list that stands:
/// the packets that have come in of those that were announced, the bytes that were written and the
/// start. Where there is none, it shows nothing.
pub proof fn lemma_progress_is_that_of_the_first_download(
    headers: Seq<HeaderView>,
    hash: Seq<char>,
    k: int,
)
    ensures
        is_first_download(headers, hash, k) ==> (progress_of_file(headers, hash) matches Some(
            progress,
        ) && progress.received == headers[k].packets.len() as usize && progress.announced
            == headers[k].response.packet_count && progress.arrived_bytes
            == headers[k].arrived_bytes && progress.started == headers[k].started),
        has_no_download(headers, hash) ==> progress_of_file(headers, hash) is None,
    decreases headers.len(),
{
    if headers.len() > 0 && headers[0].response.file_hash != hash {
        let rest = headers.drop_first();
        lemma_progress_is_that_of_the_first_download(rest, hash, k - 1);
        if is_first_download(headers, hash, k) {
            assert forall|j: int| 0 <= j < k - 1 implies (#[trigger] rest[j]).response.file_hash
                != hash by {
                assert(rest[j] == headers[j + 1]);
            }
            assert(is_first_download(rest, hash, k - 1));
        }
        if has_no_download(headers, hash) {
            assert forall|j: int| 0 <= j < rest.len() implies (
            #[trigger] rest[j]).response.file_hash != hash by {
                assert(rest[j] == headers[j + 1]);
            }
        }
    }
}

proof fn lemma_file_row_of_tree_has_progress(tree: TreeView, headers: Seq<HeaderView>, i: int)
    requires
        0 <= i < tree_rows(tree, headers).len(),
        tree_rows(tree, headers)[i] is File,
    ensures
        tree_rows(tree, headers)[i]->progress == progress_of_file(
            headers,
            tree_rows(tree, headers)[i]->hash,
        ),
    decreases tree,
{
    if let TreeView::Folder { name, children } = tree {
        lemma_file_row_has_progress(children, headers, i - 1);
    }
}

proof fn lemma_file_row_has_progress(trees: Seq<TreeView>, headers: Seq<HeaderView>, i: int)
    requires
        0 <= i < forest_rows(trees, headers).len(),
        forest_rows(trees, headers)[i] is File,
    ensures
        forest_rows(trees, headers)[i]->progress == progress_of_file(
            headers,
            forest_rows(trees, headers)[i]->hash,
        ),
    decreases trees,
{
    if trees.len() > 0 {
        let n = trees.len() - 1;
        let rows = forest_rows(trees.subrange(0, n), headers);
        if i < rows.len() {
            lemma_file_row_has_progress(trees.subrange(0, n), headers, i);
        } else {
            lemma_file_row_of_tree_has_progress(trees[n], headers, i - rows.len());
        }
    }
}

/// Every row of a file shows how far the first download of that file has come, and nothing where
/// there is none.
pub proof fn lemma_file_rows_show_progress(
    trees: Seq<TreeView>,
    headers: Seq<HeaderView>,
    i: int,
    k: int,
)
    requires
        0 <= i < shown_rows(trees, headers).len(),
        shown_rows(trees, headers)[i] is File,
    ensures
        ({
            let row = shown_rows(trees, headers)[i];
            &&& is_first_download(headers, row->hash, k) ==> row->progress == Some(
                Progress {
                    received: headers[k].packets.len() as usize,
                    announced: headers[k].response.packet_count,
                    arrived_bytes: headers[k].arrived_bytes,
                    started: headers[k].started,
                },
            )
            &&& has_no_download(headers, row->hash) ==> row->progress is None
        }),
{
    let shown = trees.subrange(0, shown_count(trees) as int);
    lemma_file_row_has_progress(shown, headers, i);
    lemma_progress_is_that_of_the_first_download(
        headers,
        shown_rows(trees, headers)[i]->hash,
        k,
    );
}

/// The outermost trees are shown up to the first file with it, and all of them where there is none.
pub proof fn lemma_shown_up_to_the_first_file(trees: Seq<TreeView>)
    ensures
        shown_count(trees) <= trees.len(),
        forall|i: int| 0 <= i < shown_count(trees) - 1 ==> !(#[trigger] trees[i] is File),
        shown_count(trees) < trees.len() ==> shown_count(trees) > 0 && trees[shown_count(trees)
            - 1] is File,
    decreases trees.len(),
{
    if trees.len() > 0 && !(trees[0] is File) {
        let rest = trees.drop_first();
        lemma_shown_up_to_the_first_file(rest);
        assert forall|i: int| 0 <= i < shown_count(trees) - 1 implies !(
        #[trigger] trees[i] is File) by {
            if i > 0 {
                assert(rest[i - 1] == trees[i]);
            }
        }
        if shown_count(trees) < trees.len() {
            assert(rest[shown_count(rest) - 1] == trees[shown_count(trees) - 1]);
        }
    }
}

/// Trees are shown one after the other.
pub proof fn lemma_rows_go_from_top_to_bottom(
    first: Seq<TreeView>,
    second: Seq<TreeView>,
    headers: Seq<HeaderView>,
)
    ensures
        forest_rows(first + second, headers) == forest_rows(first, headers) + forest_rows(
            second,
            headers,
        ),
    decreases second.len(),
{
    if second.len() == 0 {
        assert(first + second =~= first);
        assert(forest_rows(first, headers) + forest_rows(second, headers) =~= forest_rows(
            first,
            headers,
        ));
    } else {
        let n = second.len() - 1;
        let all = first + second;
        assert(all.subrange(0, all.len() - 1) =~= first + second.subrange(0, n));
        lemma_rows_go_from_top_to_bottom(first, second.subrange(0, n), headers);
        assert(forest_rows(all, headers) =~= forest_rows(first, headers) + forest_rows(
            second,
            headers,
        ));
    }
}

/// A folder is shown by a row with its name, and then the rows of its children, which it counts; a
/// file by one row with its name and its hash; an empty tree by one row.
pub proof fn lemma_rows_of_a_tree(tree: TreeView, headers: Seq<HeaderView>)
    ensures
        forest_rows(seq![tree], headers) == tree_rows(tree, headers),
        match tree {
            TreeView::Folder { name, children } => {
                let rows = tree_rows(tree, headers);
                &&& rows.len() == 1 + forest_rows(children, headers).len()
                &&& rows[0] is Folder
                &&& rows[0]->Folder_name == name
                &&& rows[0]->size == rows.len() - 1
                &&& rows.skip(1) == forest_rows(children, headers)
            },
            TreeView::File { name, hash } => {
                let rows = tree_rows(tree, headers);
                &&& rows.len() == 1
                &&& rows[0] is File
                &&& rows[0]->File_name == name
                &&& rows[0]->hash == hash
            },
            TreeView::Empty => tree_rows(tree, headers) == seq![RowView::Empty],
        },
{
    let none = seq![tree].subrange(0, 0);
    assert(none =~= Seq::<TreeView>::empty());
    assert(forest_rows(none, headers) =~= Seq::<RowView>::empty());
    assert(forest_rows(seq![tree], headers) =~= tree_rows(tree, headers));
    if let TreeView::Folder { name, children } = tree {
        assert(tree_rows(tree, headers).skip(1) =~= forest_rows(children, headers));
    }
}

/// The hashes and names of the files among rows, from top to bottom.
pub open spec fn files_of_rows(rows: Seq<RowView>) -> Seq<(Seq<char>, Seq<char>)>
    decreases rows.len(),
{
    if rows.len() == 0 {
        Seq::empty()
    } else {
        match rows.last() {
            RowView::File { name, hash, progress } => files_of_rows(rows.drop_last()).push(
                (hash, name),
            ),
            _ => files_of_rows(rows.drop_last()),
        }
    }
}

proof fn lemma_files_of_rows_appended(first: Seq<RowView>, second: Seq<RowView>)
    ensures
        files_of_rows(first + second) == files_of_rows(first) + files_of_rows(second),
    decreases second.len(),
{
    if second.len() == 0 {
        assert(first + second =~= first);
        assert(files_of_rows(first) + files_of_rows(second) =~= files_of_rows(first));
    } else {
        assert((first + second).drop_last() =~= first + second.drop_last());
        lemma_files_of_rows_appended(first, second.drop_last());
        assert(files_of_rows(first + second) =~= files_of_rows(first) + files_of_rows(second));
    }
}

proof fn lemma_tree_rows_show_listed_files(tree: TreeView, headers: Seq<HeaderView>)
    ensures
        files_of_rows(tree_rows(tree, headers)) == listed_files(tree),
    decreases tree,
{
    let rows = tree_rows(tree, headers);
    if let TreeView::Folder { name, children } = tree {
        let inner = forest_rows(children, headers);
        let head = seq![RowView::Folder { name, size: inner.len() }];
        lemma_rows_show_listed_files(children, headers);
        lemma_files_of_rows_appended(head, inner);
        assert(head.drop_last() =~= Seq::<RowView>::empty());
        assert(files_of_rows(head.drop_last()) =~= Seq::empty());
        assert(files_of_rows(head) =~= Seq::empty());
        assert(files_of_rows(rows) =~= listed_files(tree));
    } else {
        assert(rows.drop_last() =~= Seq::<RowView>::empty());
        assert(files_of_rows(rows.drop_last()) =~= Seq::empty());
        assert(files_of_rows(rows) =~= listed_files(tree));
    }
}

/// The rows of trees show exactly the files that the trees list, each once and in order.
pub proof fn lemma_rows_show_listed_files(trees: Seq<TreeView>, headers: Seq<HeaderView>)
    ensures
        files_of_rows(forest_rows(trees, headers)) == listed_in_forest(trees),
    decreases trees,
{
    if trees.len() > 0 {
        let n = trees.len() - 1;
        let front = trees.subrange(0, n);
        lemma_rows_show_listed_files(front, headers);
        lemma_tree_rows_show_listed_files(trees[n], headers);
        lemma_files_of_rows_appended(forest_rows(front, headers), tree_rows(trees[n], headers));
    } else {
        assert(files_of_rows(forest_rows(trees, headers)) =~= listed_in_forest(trees));
    }
}

/// Whether a row is hidden: it is among those of a folder that is not open.
pub open spec fn is_hidden(rows: Seq<RowView>, answers: Seq<bool>, i: int) -> bool {
    exists|j: int|
        0 <= j < i && (#[trigger] rows[j]) is Folder && i <= j + rows[j]->size && !(j
            < answers.len() && answers[j])
}

proof fn lemma_hit_is_clicked_and_not_hidden(rows: Seq<RowView>, answers: Seq<bool>, i: int)
    requires
        0 <= i < rows.len(),
    ensures
        is_hit(rows, answers, i) <==> rows[i] is File && i < answers.len() && answers[i]
            && !is_hidden(rows, answers, i),
{
    if is_hidden(rows, answers, i) {
        let j = choose|j: int|
            0 <= j < i && (#[trigger] rows[j]) is Folder && i <= j + rows[j]->size && !(j
                < answers.len() && answers[j]);
        assert(i < end_of_row(rows, j));
        assert(!answered(answers, j));
    } else {
        assert forall|j: int| 0 <= j < i && i < #[trigger] end_of_row(rows, j) implies answered(
            answers,
            j,
        ) by {
            assert(rows[j] is Folder);
        }
    }
}

/// The file that is chosen is the first one that is clicked and not hidden.
pub proof fn lemma_first_clicked_file_is_chosen(rows: Seq<RowView>, answers: Seq<bool>, i: int)
    requires
        0 <= i < rows.len(),
        rows[i] is File,
        i < answers.len() && answers[i],
        !is_hidden(rows, answers, i),
        forall|k: int|
            0 <= k < i && (#[trigger] rows[k]) is File && k < answers.len() && answers[k]
                ==> is_hidden(rows, answers, k),
    ensures
        chosen_file(rows, answers) == Some((rows[i]->hash, rows[i]->File_name)),
{
    lemma_hit_is_clicked_and_not_hidden(rows, answers, i);
    assert forall|k: int| k < i implies !is_hit(rows, answers, k) by {
        if 0 <= k {
            lemma_hit_is_clicked_and_not_hidden(rows, answers, k);
            assert(rows[k] is File ==> k < answers.len() ==> answers[k] ==> is_hidden(
                rows,
                answers,
                k,
            ));
        }
    }
    lemma_chosen_is_first_hit(rows, answers, i);
}

/// No file is chosen where none is clicked, but for hidden ones.
pub proof fn lemma_without_a_click_nothing_is_chosen(rows: Seq<RowView>, answers: Seq<bool>)
    requires
        forall|k: int|
            0 <= k < rows.len() && (#[trigger] rows[k]) is File && k < answers.len() && answers[k]
                ==> is_hidden(rows, answers, k),
    ensures
        chosen_file(rows, answers) is None,
{
    assert forall|k: int| !is_hit(rows, answers, k) by {
        if 0 <= k < rows.len() {
            lemma_hit_is_clicked_and_not_hidden(rows, answers, k);
            assert(rows[k] is File ==> k < answers.len() ==> answers[k] ==> is_hidden(
                rows,
                answers,
                k,
            ));
        }
    }
}

/// What is shown are the rows of the outermost trees up to the first file with it, all of them: they
/// show exactly the files that those trees list, and every file where no file is outermost.
pub proof fn lemma_everything_up_to_the_first_file_is_shown(
    trees: Seq<TreeView>,
    headers: Seq<HeaderView>,
)
    ensures
        shown_rows(trees, headers) == forest_rows(trees.take(shown_count(trees) as int), headers),
        files_of_rows(shown_rows(trees, headers)) == listed_in_forest(
            trees.take(shown_count(trees) as int),
        ),
        (forall|i: int| 0 <= i < trees.len() ==> !(#[trigger] trees[i] is File)) ==> files_of_rows(
            shown_rows(trees, headers),
        ) == listed_in_forest(trees),
{
    let shown = trees.take(shown_count(trees) as int);
    lemma_rows_show_listed_files(shown, headers);
    lemma_shown_up_to_the_first_file(trees);
    if forall|i: int| 0 <= i < trees.len() ==> !(#[trigger] trees[i] is File) {
        if shown_count(trees) < trees.len() {
            assert(trees[shown_count(trees) - 1] is File);
        }
        assert(shown =~= trees);
    }
}

} // verus!
