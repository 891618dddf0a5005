use vstd::prelude::*;
use vstd::string::*;

use crate::store::ObjectStore;

verus! {

/// The index line recording that `root` is the root hash of `filename`.
pub open spec fn index_entry(root: Seq<char>, filename: Seq<char>) -> Seq<char> {
    root + " "@ + filename
}

/// Appends the `root -> filename` relationship to the append-only index.
pub fn append_only_index(store: &mut ObjectStore, root: &str, filename: &str)
    ensures
        final(store).index_lines() == old(store).index_lines().push(index_entry(root@, filename@)),
        final(store).objects() == old(store).objects(),
{
    let mut line = String::from_str(root);
    line.append(" ");
    line.append(filename);
    store.append_index_line(line);
}

/// The index is a log: two appends add two lines, in call order, and keep
/// every earlier line as it was.
pub proof fn lemma_index_append_only(
    s0: ObjectStore,
    s1: ObjectStore,
    s2: ObjectStore,
    root1: Seq<char>,
    name1: Seq<char>,
    root2: Seq<char>,
    name2: Seq<char>,
)
    requires
        s1.index_lines() == s0.index_lines().push(index_entry(root1, name1)),
        s2.index_lines() == s1.index_lines().push(index_entry(root2, name2)),
    ensures
        s2.index_lines().len() == s0.index_lines().len() + 2,
        s2.index_lines() == s0.index_lines() + seq![
            index_entry(root1, name1),
            index_entry(root2, name2),
        ],
        s2.index_lines().take(s0.index_lines().len() as int) == s0.index_lines(),
{
    assert(s2.index_lines() =~= s0.index_lines() + seq![
        index_entry(root1, name1),
        index_entry(root2, name2),
    ]);
    assert(s2.index_lines().take(s0.index_lines().len() as int) =~= s0.index_lines());
}

} // verus!
