//! What the dialog that asks for a place to save a file proposes.

use vstd::prelude::*;
use vstd::string::StrSliceExecFns;

verus! {

/// What a dialog proposes: a file name, and the name and the pattern of a filter on extensions.
pub struct SaveDialog {
    pub file_name: String,
    pub filter_name: String,
    pub extension: String,
}

/// How many characters of a name come before its first dot.
pub open spec fn before_dot(name: Seq<char>) -> nat
    decreases name.len(),
{
    if name.len() == 0 || name[0] == '.' {
        0
    } else {
        1 + before_dot(name.drop_first())
    }
}

/// Where a name is split: at its first dot, and at its start where it has none.
pub open spec fn split_point(name: Seq<char>) -> int {
    if before_dot(name) < name.len() {
        before_dot(name) as int
    } else {
        0
    }
}

/// Whether a dialog can be made for a name: it is not empty, and what follows the split point
/// starts with a character of one byte, which the filter leaves out.
pub open spec fn can_be_saved(name: Seq<char>) -> bool {
    name.len() > 0 && (name[split_point(name)] as int) < 128
}

proof fn lemma_before_dot(name: Seq<char>, n: int)
    requires
        0 <= n <= name.len(),
        forall|i: int| 0 <= i < n ==> #[trigger] name[i] != '.',
    ensures
        before_dot(name) == n + before_dot(name.skip(n)),
    decreases n,
{
    if n == 0 {
        assert(name.skip(0) =~= name);
    } else {
        lemma_before_dot(name.drop_first(), n - 1);
        assert(name.drop_first().skip(n - 1) =~= name.skip(n));
    }
}

/// Where a name is split.
fn find_split_point(name: &str) -> (at: usize)
    ensures
        at == split_point(name@),
{
    let total: usize = name.unicode_len();
    let mut i: usize = 0;
    for c in iter: name.chars()
        invariant
            iter.seq() == name@,
            i == iter.index(),
            total == name@.len(),
            forall|j: int| 0 <= j < i ==> #[trigger] name@[j] != '.',
    {
        if c == '.' {
            proof {
                lemma_before_dot(name@, i as int);
            }
            return i;
        }
        i = i + 1;
    }
    proof {
        lemma_before_dot(name@, i as int);
    }
    0
}

/// Whether [`save_dialog`] can make a dialog for a name.
pub fn is_savable(name: &str) -> (savable: bool)
    ensures
        savable == can_be_saved(name@),
{
    if name.is_empty() {
        return false;
    }
    let at = find_split_point(name);
    let first: char = name.get_char(at);
    (first as u32) < 128
}

/// What the dialog to save a file proposes: the name up to its first dot, and a filter on the
/// rest, whose pattern leaves out the dot.
pub fn save_dialog(name: &str) -> (dialog: SaveDialog)
    requires
        can_be_saved(name@),
    ensures
        dialog.file_name@ == name@.take(split_point(name@)),
        dialog.filter_name@ == name@.skip(split_point(name@)),
        dialog.extension@ == name@.skip(split_point(name@) + 1),
        dialog.file_name@ + dialog.filter_name@ == name@,
        dialog.extension@ == dialog.filter_name@.skip(1),
        !dialog.file_name@.contains('.'),
        name@.contains('.') ==> dialog.filter_name@[0] == '.',
        !name@.contains('.') ==> dialog.file_name@.len() == 0,
{
    proof {
        lemma_name_is_split_at_its_first_dot(name@);
        lemma_proposed_name_has_no_dot(name@);
    }
    let total: usize = name.unicode_len();
    let at = find_split_point(name);
    let file_name = name.substring_char(0, at).to_owned();
    let filter_name = name.substring_char(at, total).to_owned();
    let extension = name.substring_char(at + 1, total).to_owned();
    SaveDialog { file_name, filter_name, extension }
}

/// The proposed name and the name of the filter make up the name of the file.
pub proof fn lemma_dialog_keeps_the_name(name: Seq<char>)
    requires
        can_be_saved(name),
    ensures
        name.take(split_point(name)) + name.skip(split_point(name)) == name,
{
    assert(name.take(split_point(name)) + name.skip(split_point(name)) =~= name);
}

/// The proposed name holds no dot.
pub proof fn lemma_proposed_name_has_no_dot(name: Seq<char>)
    ensures
        !name.take(split_point(name)).contains('.'),
{
    lemma_no_dot_before(name);
    let proposed = name.take(split_point(name));
    if proposed.contains('.') {
        let i = proposed.index_of('.');
        assert(name[i] == '.');
    }
}

proof fn lemma_no_dot_before(name: Seq<char>)
    ensures
        before_dot(name) <= name.len(),
        forall|i: int| 0 <= i < before_dot(name) ==> #[trigger] name[i] != '.',
    decreases name.len(),
{
    if name.len() > 0 && name[0] != '.' {
        let rest = name.drop_first();
        lemma_no_dot_before(rest);
        assert forall|i: int| 0 <= i < before_dot(name) implies #[trigger] name[i] != '.' by {
            if i > 0 {
                assert(rest[i - 1] == name[i]);
            }
        }
    }
}

/// A name is split at its first dot: what follows starts with it, and no dot comes before. A name
/// without a dot is split at its start.
pub proof fn lemma_name_is_split_at_its_first_dot(name: Seq<char>)
    ensures
        0 <= split_point(name) <= name.len(),
        name.contains('.') ==> split_point(name) < name.len() && name[split_point(name)] == '.'
            && forall|i: int| 0 <= i < split_point(name) ==> #[trigger] name[i] != '.',
        !name.contains('.') ==> split_point(name) == 0,
{
    lemma_no_dot_before(name);
    lemma_dot_at(name);
    if name.contains('.') {
        let i = name.index_of('.');
        assert(name[i] == '.');
        assert(before_dot(name) <= i);
    } else if before_dot(name) < name.len() {
        assert(name[before_dot(name) as int] == '.');
    }
}

proof fn lemma_dot_at(name: Seq<char>)
    ensures
        before_dot(name) < name.len() ==> name[before_dot(name) as int] == '.',
    decreases name.len(),
{
    if name.len() > 0 && name[0] != '.' {
        lemma_dot_at(name.drop_first());
    }
}

/// A dialog can be made for every name with a dot, and for every other that starts with an ASCII
/// character.
pub proof fn lemma_names_that_can_be_saved(name: Seq<char>)
    ensures
        name.contains('.') ==> can_be_saved(name),
        !name.contains('.') && name.len() > 0 ==> (can_be_saved(name) <==> (name[0] as int) < 128),
        name.len() == 0 ==> !can_be_saved(name),
{
    lemma_name_is_split_at_its_first_dot(name);
}

} // verus!
