//! The tree of shared folders and files that a host publishes.

use vstd::prelude::*;

verus! {

/// A published tree. A file is named and carries the hash by which it is requested.
pub enum FileTree {
    Folder((String, Vec<FileTree>)),
    File((String, String)),
    Empty,
}

/// The mathematical value of a [`FileTree`].
#[verifier::ext_equal]
pub enum TreeView {
    Folder { name: Seq<char>, children: Seq<TreeView> },
    File { name: Seq<char>, hash: Seq<char> },
    Empty,
}

impl View for FileTree {
    type V = TreeView;

    open spec fn view(&self) -> TreeView
        decreases self,
    {
        match self {
            FileTree::Folder(folder) => TreeView::Folder {
                name: folder.0@,
                children: Seq::new(
                    folder.1@.len(),
                    |i: int|
                        if 0 <= i < folder.1@.len() {
                            folder.1@[i].view()
                        } else {
                            TreeView::Empty
                        },
                ),
            },
            FileTree::File(file) => TreeView::File { name: file.0@, hash: file.1@ },
            FileTree::Empty => TreeView::Empty,
        }
    }
}

/// The values of a list of trees, in order.
pub open spec fn forest(trees: Seq<FileTree>) -> Seq<TreeView> {
    Seq::new(trees.len(), |i: int| trees[i]@)
}

/// Every pair of a hash and a file name that a tree lists, from top to bottom.
pub open spec fn listed_files(tree: TreeView) -> Seq<(Seq<char>, Seq<char>)>
    decreases tree,
{
    match tree {
        TreeView::Folder { name, children } => listed_in_forest(children),
        TreeView::File { name, hash } => seq![(hash, name)],
        TreeView::Empty => Seq::empty(),
    }
}

/// [`listed_files`] of several trees, one after the other.
pub open spec fn listed_in_forest(trees: Seq<TreeView>) -> Seq<(Seq<char>, Seq<char>)>
    decreases trees,
{
    if trees.len() == 0 {
        Seq::empty()
    } else {
        listed_in_forest(trees.subrange(0, trees.len() - 1)) + listed_files(trees[trees.len() - 1])
    }
}

/// Whether trees list a file under a hash.
pub open spec fn lists_hash(trees: Seq<TreeView>, hash: Seq<char>) -> bool {
    exists|i: int|
        0 <= i < listed_in_forest(trees).len() && (#[trigger] listed_in_forest(trees)[i]).0 == hash
}

impl FileTree {
    /// Whether two trees have the same value.
    pub fn same(&self, other: &FileTree) -> (equal: bool)
        ensures
            equal == (self@ == other@),
        decreases self,
    {
        match (self, other) {
            (FileTree::Folder(a), FileTree::Folder(b)) => {
                let ghost left = self@->children;
                let ghost right = other@->children;
                if a.0 != b.0 || a.1.len() != b.1.len() {
                    assert(a.1@.len() != b.1@.len() ==> left.len() != right.len());
                    return false;
                }
                let mut i: usize = 0;
                while i < a.1.len()
                    invariant
                        i <= a.1.len(),
                        a.1.len() == b.1.len(),
                        *self == FileTree::Folder(*a),
                        *other == FileTree::Folder(*b),
                        left == self@->children,
                        right == other@->children,
                        forall|j: int| 0 <= j < i ==> left[j] == right[j],
                    decreases a.1.len() - i,
                {
                    if !a.1[i].same(&b.1[i]) {
                        assert(left[i as int] != right[i as int]);
                        return false;
                    }
                    i += 1;
                }
                assert(left =~= right);
                true
            },
            (FileTree::File(a), FileTree::File(b)) => a.0 == b.0 && a.1 == b.1,
            (FileTree::Empty, FileTree::Empty) => true,
            _ => false,
        }
    }
}

impl Clone for FileTree {
    fn clone(&self) -> (copy: FileTree)
        ensures
            copy@ == self@,
        decreases self,
    {
        match self {
            FileTree::Folder(folder) => {
                let mut children: Vec<FileTree> = Vec::new();
                let mut i: usize = 0;
                while i < folder.1.len()
                    invariant
                        i <= folder.1.len(),
                        i == children.len(),
                        *self == FileTree::Folder(*folder),
                        forall|j: int| 0 <= j < i ==> (#[trigger] children@[j])@ == folder.1@[j]@,
                    decreases folder.1.len() - i,
                {
                    assert(decreases_to!(self => self->Folder_0));
                    assert(decreases_to!(self->Folder_0 => folder.1));
                    assert(decreases_to!(folder.1 => folder.1[i as int]));
                    children.push(folder.1[i].clone());
                    i += 1;
                }
                let copy = FileTree::Folder((folder.0.clone(), children));
                assert(copy@->children =~= self@->children);
                copy
            },
            FileTree::File(file) => FileTree::File((file.0.clone(), file.1.clone())),
            FileTree::Empty => FileTree::Empty,
        }
    }
}

/// Whether two lists of trees have the same values in the same order.
pub fn same_trees(left: &Vec<FileTree>, right: &Vec<FileTree>) -> (equal: bool)
    ensures
        equal == (forest(left@) == forest(right@)),
{
    if left.len() != right.len() {
        assert(forest(left@).len() != forest(right@).len());
        return false;
    }
    let mut i: usize = 0;
    while i < left.len()
        invariant
            i <= left.len(),
            left.len() == right.len(),
            forall|j: int| 0 <= j < i ==> forest(left@)[j] == forest(right@)[j],
        decreases left.len() - i,
    {
        if !left[i].same(&right[i]) {
            assert(forest(left@)[i as int] != forest(right@)[i as int]);
            return false;
        }
        i += 1;
    }
    assert(forest(left@) =~= forest(right@));
    true
}

/// A copy of a list of trees.
pub fn copy_trees(trees: &Vec<FileTree>) -> (copy: Vec<FileTree>)
    ensures
        forest(copy@) == forest(trees@),
{
    let mut copy: Vec<FileTree> = Vec::new();
    let mut i: usize = 0;
    while i < trees.len()
        invariant
            i <= trees.len(),
            i == copy.len(),
            forall|j: int| 0 <= j < i ==> (#[trigger] copy@[j])@ == trees@[j]@,
        decreases trees.len() - i,
    {
        copy.push(trees[i].clone());
        i += 1;
    }
    assert(forest(copy@) =~= forest(trees@));
    copy
}

/// What stands in a tree at a path: the numbers of the children to go down through.
pub open spec fn tree_at(tree: TreeView, path: Seq<int>) -> Option<TreeView>
    decreases path.len(),
{
    if path.len() == 0 {
        Some(tree)
    } else {
        match tree {
            TreeView::Folder { name, children } => if 0 <= path[0] < children.len() {
                tree_at(children[path[0]], path.drop_first())
            } else {
                None
            },
            _ => None,
        }
    }
}

/// Whether a file with a hash and a name stands somewhere in a tree.
pub open spec fn stands_in(tree: TreeView, pair: (Seq<char>, Seq<char>)) -> bool {
    exists|path: Seq<int>| #[trigger]
        tree_at(tree, path) == Some(TreeView::File { name: pair.1, hash: pair.0 })
}

/// The value of a tree is made of its name, its hash and the values of its children, all of them.
pub proof fn lemma_value_of_a_tree(tree: FileTree)
    ensures
        match tree {
            FileTree::Folder(folder) => {
                &&& tree@ is Folder
                &&& tree@->Folder_name == folder.0@
                &&& tree@->children.len() == folder.1@.len()
                &&& forall|i: int|
                    0 <= i < folder.1@.len() ==> #[trigger] tree@->children[i] == folder.1@[i]@
            },
            FileTree::File(file) => tree@ == (TreeView::File { name: file.0@, hash: file.1@ }),
            FileTree::Empty => tree@ is Empty,
        },
{
}

/// Two trees have the same value just where they have the same names, hashes and children.
pub proof fn lemma_value_tells_trees_apart(a: FileTree, b: FileTree)
    ensures
        a@ == b@ <==> match (a, b) {
            (FileTree::Folder(x), FileTree::Folder(y)) => {
                &&& x.0@ == y.0@
                &&& x.1@.len() == y.1@.len()
                &&& forall|i: int| 0 <= i < x.1@.len() ==> (#[trigger] x.1@[i])@ == y.1@[i]@
            },
            (FileTree::File(x), FileTree::File(y)) => x.0@ == y.0@ && x.1@ == y.1@,
            (FileTree::Empty, FileTree::Empty) => true,
            _ => false,
        },
{
    lemma_value_of_a_tree(a);
    lemma_value_of_a_tree(b);
    if let (FileTree::Folder(x), FileTree::Folder(y)) = (a, b) {
        let left = a@->children;
        let right = b@->children;
        if a@ == b@ {
            assert(x.1@.len() == left.len() && y.1@.len() == left.len());
            assert forall|i: int| 0 <= i < x.1@.len() implies (#[trigger] x.1@[i])@ == y.1@[i]@ by {
                assert(left[i] == x.1@[i]@);
                assert(right[i] == y.1@[i]@);
            }
        }
        if x.1@.len() == y.1@.len() && forall|i: int|
            0 <= i < x.1@.len() ==> (#[trigger] x.1@[i])@ == y.1@[i]@ {
            assert(left =~= right);
        }
    }
}

/// A list of trees has as many values as trees, each that of its tree.
pub proof fn lemma_values_of_trees(trees: Seq<FileTree>, i: int)
    ensures
        forest(trees).len() == trees.len(),
        0 <= i < trees.len() ==> forest(trees)[i] == trees[i]@,
{
}

/// What trees list is what the first of them list, and then what the others list.
pub proof fn lemma_listing_goes_from_top_to_bottom(first: Seq<TreeView>, second: Seq<TreeView>)
    ensures
        listed_in_forest(first + second) == listed_in_forest(first) + listed_in_forest(second),
    decreases second.len(),
{
    if second.len() == 0 {
        assert(first + second =~= first);
        assert(listed_in_forest(first) + listed_in_forest(second) =~= listed_in_forest(first));
    } else {
        let n = second.len() - 1;
        let all = first + second;
        assert(all.subrange(0, all.len() - 1) =~= first + second.subrange(0, n));
        lemma_listing_goes_from_top_to_bottom(first, second.subrange(0, n));
        assert(listed_in_forest(all) =~= listed_in_forest(first) + listed_in_forest(second));
    }
}

/// A tree lists what its children list, a file itself, and an empty one nothing.
pub proof fn lemma_listing_of_a_tree(tree: TreeView)
    ensures
        match tree {
            TreeView::Folder { name, children } => {
                &&& children.len() == 0 ==> listed_files(tree).len() == 0
                &&& children.len() == 1 ==> listed_files(tree) == listed_files(children[0])
                &&& listed_files(tree) == listed_in_forest(children)
            },
            TreeView::File { name, hash } => listed_files(tree).len() == 1 && listed_files(tree)[0]
                == (hash, name),
            TreeView::Empty => listed_files(tree).len() == 0,
        },
{
    if let TreeView::Folder { name, children } = tree {
        if children.len() == 1 {
            let none = children.subrange(0, 0);
            assert(listed_in_forest(none) =~= Seq::empty());
            assert(listed_in_forest(children) =~= listed_files(children[0]));
        }
    }
}

proof fn lemma_listed_in_one_of(trees: Seq<TreeView>, pair: (Seq<char>, Seq<char>)) -> (i: int)
    requires
        listed_in_forest(trees).contains(pair),
    ensures
        0 <= i < trees.len(),
        listed_files(trees[i]).contains(pair),
    decreases trees.len(),
{
    let n = trees.len() - 1;
    let k = listed_in_forest(trees).index_of(pair);
    let front = trees.subrange(0, n);
    let listing = listed_in_forest(front);
    if k < listing.len() {
        assert(listing[k] == pair);
        lemma_listed_in_one_of(front, pair)
    } else {
        assert(listed_files(trees[n])[k - listing.len()] == pair);
        n
    }
}

proof fn lemma_one_of_is_listed(trees: Seq<TreeView>, i: int, pair: (Seq<char>, Seq<char>))
    requires
        0 <= i < trees.len(),
        listed_files(trees[i]).contains(pair),
    ensures
        listed_in_forest(trees).contains(pair),
    decreases trees.len(),
{
    let n = trees.len() - 1;
    let front = trees.subrange(0, n);
    let listing = listed_in_forest(front);
    if i < n {
        lemma_one_of_is_listed(front, i, pair);
        let k = listing.index_of(pair);
        assert(listed_in_forest(trees)[k] == pair);
    } else {
        let k = listed_files(trees[n]).index_of(pair);
        assert(listed_in_forest(trees)[listing.len() + k] == pair);
    }
}

proof fn lemma_listed_file_stands(tree: TreeView, pair: (Seq<char>, Seq<char>)) -> (path: Seq<int>)
    requires
        listed_files(tree).contains(pair),
    ensures
        tree_at(tree, path) == Some(TreeView::File { name: pair.1, hash: pair.0 }),
    decreases tree,
{
    match tree {
        TreeView::Folder { name, children } => {
            let i = lemma_listed_in_one_of(children, pair);
            let inner = lemma_listed_file_stands(children[i], pair);
            let path = seq![i] + inner;
            assert(path.drop_first() =~= inner);
            path
        },
        _ => Seq::empty(),
    }
}

proof fn lemma_standing_file_is_listed(tree: TreeView, path: Seq<int>)
    requires
        tree_at(tree, path) matches Some(found) && found is File,
    ensures
        listed_files(tree).contains((tree_at(tree, path)->0->hash, tree_at(tree, path)->0->File_name)),
    decreases path.len(),
{
    let found = tree_at(tree, path)->0;
    let pair = (found->hash, found->File_name);
    if path.len() == 0 {
        assert(listed_files(tree)[0] == pair);
    } else if let TreeView::Folder { name, children } = tree {
        lemma_standing_file_is_listed(children[path[0]], path.drop_first());
        lemma_one_of_is_listed(children, path[0], pair);
    }
}

/// Trees list exactly the files that stand in one of them, at whatever depth.
pub proof fn lemma_listed_is_what_stands_in_trees(
    trees: Seq<TreeView>,
    pair: (Seq<char>, Seq<char>),
)
    ensures
        listed_in_forest(trees).contains(pair) <==> exists|i: int|
            0 <= i < trees.len() && stands_in(#[trigger] trees[i], pair),
{
    if listed_in_forest(trees).contains(pair) {
        let i = lemma_listed_in_one_of(trees, pair);
        let path = lemma_listed_file_stands(trees[i], pair);
        assert(stands_in(trees[i], pair));
    }
    if exists|i: int| 0 <= i < trees.len() && stands_in(#[trigger] trees[i], pair) {
        let i = choose|i: int| 0 <= i < trees.len() && stands_in(#[trigger] trees[i], pair);
        let path = choose|path: Seq<int>| #[trigger]
            tree_at(trees[i], path) == Some(TreeView::File { name: pair.1, hash: pair.0 });
        lemma_standing_file_is_listed(trees[i], path);
        lemma_one_of_is_listed(trees, i, pair);
    }
}

} // verus!
