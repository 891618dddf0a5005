use vstd::prelude::*;
use vstd::string::*;
use vstd::utf8::*;

use crate::fs::{get_path_from_hash, object_path};
use crate::hash::{hash_block, hash_str, hash_tuple_2, is_digest, is_hex_digit, sha1_hex, texts};
use crate::store::{lookup, ObjectStore};

verus! {

broadcast use encode_utf8_decode_utf8, decode_utf8_encode_utf8, encode_utf8_valid_utf8;

/// One record line of a tree node: `{label} {hash}` and a line feed.
pub open spec fn node_line(label: Seq<char>, h: Seq<char>) -> Seq<char> {
    label + " "@ + h + "\n"@
}

/// Number of nodes one pass makes over `n` hashes: one per pair, and one for
/// an odd element carried forward.
pub open spec fn pass_len(n: nat) -> nat {
    (n + 1) / 2
}

/// `i` is the index of a pair node in a pass over `n` hashes.
pub open spec fn is_pair(n: nat, i: int) -> bool {
    2 * i + 1 < n
}

/// Identity of a pair node: the digest of its two children's concatenated text.
pub open spec fn pair_id(a: Seq<char>, b: Seq<char>) -> Seq<char> {
    sha1_hex(encode_utf8(a) + encode_utf8(b))
}

/// Identity of a single node: the digest of its child's text, never the child
/// itself.
pub open spec fn single_id(a: Seq<char>) -> Seq<char> {
    sha1_hex(encode_utf8(a))
}

/// Identity of the `i`-th node of a pass over `l`: the digest of the two
/// children's concatenated text for a pair node, and the digest of the lone
/// child's text for a single node.
pub open spec fn node_id(l: Seq<Seq<char>>, i: int) -> Seq<char> {
    if is_pair(l.len(), i) {
        pair_id(l[2 * i], l[2 * i + 1])
    } else {
        single_id(l[2 * i])
    }
}

/// Text of the `i`-th node of a pass over `l` whose children carry `label`.
pub open spec fn node_text(l: Seq<Seq<char>>, label: Seq<char>, i: int) -> Seq<char> {
    if is_pair(l.len(), i) {
        node_line(label, l[2 * i]) + node_line(label, l[2 * i + 1])
    } else {
        node_line(label, l[2 * i])
    }
}

/// The hashes that one pass over `l` hands to the next.
pub open spec fn pass_ids(l: Seq<Seq<char>>) -> Seq<Seq<char>> {
    Seq::new(pass_len(l.len()), |i: int| node_id(l, i))
}

/// The node writes of one pass over `l`, in order.
pub open spec fn pass_writes(l: Seq<Seq<char>>, label: Seq<char>) -> Seq<(Seq<char>, Seq<u8>)> {
    Seq::new(
        pass_len(l.len()),
        |i: int| (object_path(node_id(l, i)), encode_utf8(node_text(l, label, i))),
    )
}

/// The hash left once passes over a non-empty `l` have reduced it to one.
pub open spec fn reduce_root(l: Seq<Seq<char>>) -> Seq<char>
    decreases l.len(),
{
    let p = pass_ids(l);
    if p.len() > 1 {
        reduce_root(p)
    } else {
        p[0]
    }
}

/// The node writes of all passes over `l`, the first with `label`, the later
/// ones with `tree`.
pub open spec fn tree_writes(l: Seq<Seq<char>>, label: Seq<char>) -> Seq<(Seq<char>, Seq<u8>)>
    decreases l.len(),
{
    let p = pass_ids(l);
    if p.len() > 1 {
        pass_writes(l, label) + tree_writes(p, "tree"@)
    } else {
        pass_writes(l, label)
    }
}

/// Root hash of a list of block hashes. An empty list has the digest of the
/// empty byte string as its root, and no node.
pub open spec fn merkle_root(l: Seq<Seq<char>>) -> Seq<char> {
    if l.len() == 0 {
        sha1_hex(Seq::empty())
    } else {
        reduce_root(l)
    }
}

/// The node writes that storing a tree for `l` makes.
pub open spec fn stored_tree(l: Seq<Seq<char>>) -> Seq<(Seq<char>, Seq<u8>)> {
    if l.len() == 0 {
        Seq::empty()
    } else {
        tree_writes(l, "block"@)
    }
}

/// An element of a pass: two adjacent hashes, or an odd one carried forward.
#[derive(Debug, Clone, Copy)]
pub enum Leaf<'f> {
    Single(&'f str),
    Pair(&'f str, &'f str),
}

/// `leaf` is the `i`-th element of a pass over `l`.
pub open spec fn leaf_of(leaf: Leaf, l: Seq<Seq<char>>, i: int) -> bool {
    match leaf {
        Leaf::Pair(a, b) => is_pair(l.len(), i) && a@ == l[2 * i] && b@ == l[2 * i + 1],
        Leaf::Single(a) => !is_pair(l.len(), i) && 2 * i < l.len() && a@ == l[2 * i],
    }
}

/// In a MerkleTree the leaves are the digests of the data blocks. Adjacent
/// hashes are paired into parent nodes, pass after pass, until one hash, the
/// root, is left. Records naming data blocks carry the label `block`, those
/// naming other nodes the label `tree`.
pub struct MerkleTree {
    hash_list: Vec<String>,
}

impl MerkleTree {
    pub closed spec fn hashes(&self) -> Seq<Seq<char>> {
        texts(self.hash_list@)
    }

    pub fn new(hash_list: Vec<String>) -> (r: Self)
        ensures
            r.hashes() == texts(hash_list@),
    {
        MerkleTree { hash_list }
    }

    /// Writes the tree's nodes into `store` and returns the root hash. An
    /// empty tree writes nothing.
    pub fn write(&self, store: &mut ObjectStore) -> (r: String)
        ensures
            r@ == merkle_root(self.hashes()),
            is_digest(r@),
            final(store).objects() == old(store).objects() + stored_tree(self.hashes()),
            self.hashes().len() > 0 ==> level_ids_digests(self.hashes()),
            final(store).index_lines() == old(store).index_lines(),
    {
        if self.hash_list.len() == 0 {
            let empty: Vec<u8> = Vec::new();
            assert(empty@ =~= Seq::<u8>::empty());
            assert(old(store).objects() + Seq::empty() =~= old(store).objects());
            return hash_block(empty.as_slice());
        }
        Self::write_to_end(&self.hash_list, "block", store)
    }

    fn write_to_end(level: &Vec<String>, prefix: &str, store: &mut ObjectStore) -> (r: String)
        requires
            level@.len() >= 1,
        ensures
            r@ == reduce_root(texts(level@)),
            is_digest(r@),
            level_ids_digests(texts(level@)),
            final(store).objects() == old(store).objects() + tree_writes(texts(level@), prefix@),
            final(store).index_lines() == old(store).index_lines(),
        decreases level@.len(),
    {
        let ghost l = texts(level@);
        let xs = Self::split_into_tuples(level);
        let mut parent: Vec<String> = Vec::new();
        let mut k: usize = 0;
        assert(pass_writes(l, prefix@).take(0) =~= Seq::<(Seq<char>, Seq<u8>)>::empty());
        assert(old(store).objects() + Seq::<(Seq<char>, Seq<u8>)>::empty() =~= old(
            store,
        ).objects());
        while k < xs.len()
            invariant
                l == texts(level@),
                xs@.len() == pass_len(l.len()),
                forall|i: int| 0 <= i < xs@.len() ==> leaf_of(#[trigger] xs@[i], l, i),
                k <= xs@.len(),
                texts(parent@) == pass_ids(l).take(k as int),
                forall|i: int| 0 <= i < parent@.len() ==> is_digest(#[trigger] parent@[i]@),
                store.objects() == old(store).objects() + pass_writes(l, prefix@).take(k as int),
                store.index_lines() == old(store).index_lines(),
            decreases xs@.len() - k,
        {
            assert(leaf_of(xs@[k as int], l, k as int));
            let h = match xs[k] {
                Leaf::Single(b) => {
                    let h = hash_str(b);
                    let mut text = String::from_str(prefix);
                    text.append(" ");
                    text.append(b);
                    text.append("\n");
                    let path = get_path_from_hash(h.as_str());
                    let bytes = text.as_str().as_bytes_vec();
                    assert(text@ == node_text(l, prefix@, k as int));
                    store.put(path, bytes);
                    h
                },
                Leaf::Pair(b1, b2) => {
                    let h = hash_tuple_2((b1, b2));
                    let mut text = String::from_str(prefix);
                    text.append(" ");
                    text.append(b1);
                    text.append("\n");
                    text.append(prefix);
                    text.append(" ");
                    text.append(b2);
                    text.append("\n");
                    let path = get_path_from_hash(h.as_str());
                    let bytes = text.as_str().as_bytes_vec();
                    assert(text@ =~= node_text(l, prefix@, k as int));
                    store.put(path, bytes);
                    h
                },
            };
            let ghost before = parent@;
            parent.push(h);
            assert(texts(parent@) =~= texts(before).push(h@));
            assert(pass_ids(l).take(k + 1) =~= pass_ids(l).take(k as int).push(h@));
            assert(pass_writes(l, prefix@).take(k + 1) =~= pass_writes(l, prefix@).take(
                k as int,
            ).push(pass_writes(l, prefix@)[k as int]));
            k = k + 1;
        }
        assert(pass_ids(l).take(k as int) =~= pass_ids(l));
        assert(pass_writes(l, prefix@).take(k as int) =~= pass_writes(l, prefix@));
        assert forall|i: int| 0 <= i < pass_ids(l).len() implies is_digest(
            #[trigger] pass_ids(l)[i],
        ) by {
            assert(texts(parent@)[i] == parent@[i]@);
        }
        if parent.len() > 1 {
            let r = Self::write_to_end(&parent, "tree", store);
            assert(store.objects() =~= old(store).objects() + tree_writes(l, prefix@));
            r
        } else {
            assert(texts(parent@)[0] == parent@[0]@);
            parent[0].clone()
        }
    }

    fn split_into_tuples<'f>(blocks: &'f Vec<String>) -> (r: Vec<Leaf<'f>>)
        ensures
            r@.len() == pass_len(blocks@.len()),
            forall|i: int| 0 <= i < r@.len() ==> leaf_of(#[trigger] r@[i], texts(blocks@), i),
    {
        let ghost l = texts(blocks@);
        let n = blocks.len();
        let mut tuples: Vec<Leaf<'f>> = Vec::new();
        let mut i: usize = 0;
        while i + 1 < n
            invariant
                n == blocks@.len(),
                l == texts(blocks@),
                i == 2 * tuples@.len(),
                i <= n,
                forall|j: int| 0 <= j < tuples@.len() ==> leaf_of(#[trigger] tuples@[j], l, j),
            decreases n - i,
        {
            tuples.push(Leaf::Pair(blocks[i].as_str(), blocks[i + 1].as_str()));
            i = i + 2;
        }
        if n % 2 == 1 {
            tuples.push(Leaf::Single(blocks[n - 1].as_str()));
        }
        tuples
    }
}

/// Two hashes collapse to one root in a single pass: one pair node is written,
/// and its identity is the root.
pub proof fn lemma_two_hashes_one_pass(l: Seq<Seq<char>>)
    requires
        l.len() == 2,
    ensures
        pass_ids(l).len() == 1,
        merkle_root(l) == pair_id(l[0], l[1]),
        tree_writes(l, "block"@) == seq![
            (
                object_path(pair_id(l[0], l[1])),
                encode_utf8(node_line("block"@, l[0]) + node_line("block"@, l[1])),
            ),
        ],
{
    assert(pass_ids(l) =~= seq![pair_id(l[0], l[1])]);
    assert(tree_writes(l, "block"@) =~= pass_writes(l, "block"@));
    assert(pass_writes(l, "block"@) =~= seq![
        (
            object_path(pair_id(l[0], l[1])),
            encode_utf8(node_line("block"@, l[0]) + node_line("block"@, l[1])),
        ),
    ]);
}

/// Three hashes take two passes: the first pairs the first two and rewraps
/// the third alone in a single node; the second pairs those two nodes.
pub proof fn lemma_three_hashes_rewrap(l: Seq<Seq<char>>)
    requires
        l.len() == 3,
    ensures
        pass_ids(l) == seq![pair_id(l[0], l[1]), single_id(l[2])],
        merkle_root(l) == pair_id(pair_id(l[0], l[1]), single_id(l[2])),
        tree_writes(l, "block"@) == seq![
            (
                object_path(pair_id(l[0], l[1])),
                encode_utf8(node_line("block"@, l[0]) + node_line("block"@, l[1])),
            ),
            (object_path(single_id(l[2])), encode_utf8(node_line("block"@, l[2]))),
            (
                object_path(pair_id(pair_id(l[0], l[1]), single_id(l[2]))),
                encode_utf8(
                    node_line("tree"@, pair_id(l[0], l[1])) + node_line("tree"@, single_id(l[2])),
                ),
            ),
        ],
{
    let p = pass_ids(l);
    assert(p =~= seq![pair_id(l[0], l[1]), single_id(l[2])]);
    lemma_two_hashes_one_pass(p);
    assert(reduce_root(l) == reduce_root(p));
    assert(pass_ids(p) =~= seq![pair_id(p[0], p[1])]);
    assert(reduce_root(p) == pass_ids(p)[0]);
    assert(pass_writes(l, "block"@) =~= seq![
        (
            object_path(pair_id(l[0], l[1])),
            encode_utf8(node_line("block"@, l[0]) + node_line("block"@, l[1])),
        ),
        (object_path(single_id(l[2])), encode_utf8(node_line("block"@, l[2]))),
    ]);
    assert(tree_writes(p, "tree"@) =~= pass_writes(p, "tree"@));
    assert(tree_writes(l, "block"@) =~= pass_writes(l, "block"@) + tree_writes(p, "tree"@));
}

/// Order matters: where the node identities involved do not collide, a
/// reordering of three hashes has a different root.
pub proof fn lemma_three_hashes_order(l: Seq<Seq<char>>, m: Seq<Seq<char>>)
    requires
        l.len() == 3,
        m.len() == 3,
        m.to_multiset() == l.to_multiset(),
        m != l,
        pair_id(pair_id(l[0], l[1]), single_id(l[2])) == pair_id(
            pair_id(m[0], m[1]),
            single_id(m[2]),
        ) ==> pair_id(l[0], l[1]) == pair_id(m[0], m[1]) && single_id(l[2]) == single_id(m[2]),
        pair_id(l[0], l[1]) == pair_id(m[0], m[1]) ==> l[0] == m[0] && l[1] == m[1],
        single_id(l[2]) == single_id(m[2]) ==> l[2] == m[2],
    ensures
        merkle_root(l) != merkle_root(m),
{
    lemma_three_hashes_rewrap(l);
    lemma_three_hashes_rewrap(m);
    if merkle_root(l) == merkle_root(m) {
        assert(l =~= m);
    }
}

/// The lines of a text, split at each line feed (a trailing line feed leaves
/// an empty last line).
pub open spec fn split_lines(t: Seq<char>) -> Seq<Seq<char>>
    decreases t.len(),
{
    if t.len() == 0 {
        seq![Seq::empty()]
    } else {
        let r = split_lines(t.drop_last());
        if t.last() == '\n' {
            r.push(Seq::empty())
        } else {
            r.update(r.len() - 1, r.last().push(t.last()))
        }
    }
}

pub open spec fn is_tree_line(line: Seq<char>) -> bool {
    line.len() >= 5 && line.take(4) == "tree"@
}

pub open spec fn is_block_line(line: Seq<char>) -> bool {
    !is_tree_line(line) && line.len() >= 6 && line.take(5) == "block"@
}

/// The block hashes reached from the node `root`, in order. A missing node, or
/// one that is not UTF-8 text, contributes nothing; `fuel` bounds the nesting.
pub open spec fn tree_leaves(objs: Seq<(Seq<char>, Seq<u8>)>, root: Seq<char>, fuel: nat) -> Seq<
    Seq<char>,
>
    decreases fuel, 0nat,
{
    if fuel == 0 || root.len() < 2 {
        Seq::empty()
    } else {
        match lookup(objs, object_path(root)) {
            None => Seq::empty(),
            Some(b) => if valid_utf8(b) {
                lines_leaves(objs, split_lines(decode_utf8(b)), (fuel - 1) as nat)
            } else {
                Seq::empty()
            },
        }
    }
}

/// The block hashes reached from the record lines `lines`, in order.
pub open spec fn lines_leaves(
    objs: Seq<(Seq<char>, Seq<u8>)>,
    lines: Seq<Seq<char>>,
    fuel: nat,
) -> Seq<Seq<char>>
    decreases fuel, lines.len() + 1,
{
    if lines.len() == 0 {
        Seq::empty()
    } else {
        lines_leaves(objs, lines.drop_last(), fuel) + line_leaves(objs, lines.last(), fuel)
    }
}

/// The block hashes reached from one record line: a `tree` line names a node
/// to descend into, a `block` line names a block; other lines name nothing.
pub open spec fn line_leaves(objs: Seq<(Seq<char>, Seq<u8>)>, line: Seq<char>, fuel: nat) -> Seq<
    Seq<char>,
>
    decreases fuel, 1nat,
{
    if is_tree_line(line) {
        tree_leaves(objs, line.skip(5), fuel)
    } else if is_block_line(line) {
        seq![line.skip(6)]
    } else {
        Seq::empty()
    }
}

/// `split_lines` always yields at least one line.
proof fn lemma_split_lines_nonempty(t: Seq<char>)
    ensures
        split_lines(t).len() >= 1,
    decreases t.len(),
{
    if t.len() > 0 {
        lemma_split_lines_nonempty(t.drop_last());
    }
}

/// Relies on `std::str::from_utf8`: it accepts exactly the valid UTF-8 byte
/// sequences, and then reads the same bytes as text.
#[verifier::external_body]
fn utf8_text<'a>(b: &'a [u8]) -> (r: Option<&'a str>)
    ensures
        r is Some <==> valid_utf8(b@),
        r is Some ==> r->Some_0.spec_bytes() == b@,
{
    std::str::from_utf8(b).ok()
}

/// Whether `line` starts with `label`.
fn starts_with_label(line: &str, label: &str) -> (r: bool)
    ensures
        r == (line@.len() >= label@.len() && line@.take(label@.len() as int) == label@),
{
    let n = line.unicode_len();
    let k = label.unicode_len();
    if n < k {
        return false;
    }
    let head = String::from_str(line.substring_char(0, k));
    let want = String::from_str(label);
    assert(line@.subrange(0, k as int) == line@.take(k as int));
    head == want
}

fn read_line(store: &ObjectStore, line: &str, hashes: &mut Vec<String>, fuel: usize)
    ensures
        texts(final(hashes)@) == texts(old(hashes)@) + line_leaves(store.objects(), line@, fuel as nat),
    decreases fuel, 1usize,
{
    proof {
        reveal_strlit("tree");
        reveal_strlit("block");
    }
    let n = line.unicode_len();
    let tree = starts_with_label(line, "tree") && n >= 5;
    if tree {
        read_node(store, line.substring_char(5, n), hashes, fuel);
        assert(line@.subrange(5, n as int) == line@.skip(5));
    } else if starts_with_label(line, "block") && n >= 6 {
        let ghost before = hashes@;
        let leaf = String::from_str(line.substring_char(6, n));
        hashes.push(leaf);
        assert(line@.subrange(6, n as int) == line@.skip(6));
        assert(texts(hashes@) =~= texts(before) + seq![line@.skip(6)]);
    } else {
        assert(texts(hashes@) =~= texts(old(hashes)@) + Seq::<Seq<char>>::empty());
    }
}

fn read_node(store: &ObjectStore, root: &str, hashes: &mut Vec<String>, fuel: usize)
    ensures
        texts(final(hashes)@) == texts(old(hashes)@) + tree_leaves(store.objects(), root@, fuel as nat),
    decreases fuel, 0usize,
{
    let ghost objs = store.objects();
    if fuel == 0 || root.unicode_len() < 2 {
        assert(texts(hashes@) =~= texts(old(hashes)@) + Seq::<Seq<char>>::empty());
        return;
    }
    let path = get_path_from_hash(root);
    let bytes = match store.get(path.as_str()) {
        Some(b) => b,
        None => {
            assert(texts(hashes@) =~= texts(old(hashes)@) + Seq::<Seq<char>>::empty());
            return;
        },
    };
    let text = match utf8_text(bytes.as_slice()) {
        Some(t) => t,
        None => {
            assert(texts(hashes@) =~= texts(old(hashes)@) + Seq::<Seq<char>>::empty());
            return;
        },
    };
    let ghost t = text@;
    assert(t == decode_utf8(bytes@));
    let f = fuel - 1;
    let n = text.unicode_len();
    let mut i: usize = 0;
    let mut start: usize = 0;
    proof {
        assert(t.take(0) =~= Seq::<char>::empty());
        assert(split_lines(t.take(0)).drop_last() =~= Seq::<Seq<char>>::empty());
        assert(t.subrange(0, 0) =~= Seq::<char>::empty());
        assert(texts(hashes@) =~= texts(old(hashes)@) + lines_leaves(
            objs,
            Seq::<Seq<char>>::empty(),
            f as nat,
        ));
    }
    while i < n
        invariant
            objs == store.objects(),
            t == text@,
            n == t.len(),
            f as nat == fuel - 1,
            start <= i <= n,
            texts(hashes@) == texts(old(hashes)@) + lines_leaves(
                objs,
                split_lines(t.take(i as int)).drop_last(),
                f as nat,
            ),
            split_lines(t.take(i as int)).last() == t.subrange(start as int, i as int),
        decreases n - i,
    {
        let c = text.get_char(i);
        let ghost s0 = split_lines(t.take(i as int));
        proof {
            assert(t.take(i + 1).drop_last() =~= t.take(i as int));
            lemma_split_lines_nonempty(t.take(i as int));
        }
        if c == '\n' {
            let line = text.substring_char(start, i);
            read_line(store, line, hashes, f);
            proof {
                assert(split_lines(t.take(i + 1)).drop_last() =~= s0);
                assert(s0.drop_last().push(s0.last()) =~= s0);
                assert(t.subrange(i + 1, i + 1) =~= Seq::<char>::empty());
            }
            start = i + 1;
        } else {
            proof {
                assert(split_lines(t.take(i + 1)).drop_last() =~= s0.drop_last());
                assert(t.subrange(start as int, i + 1) =~= t.subrange(start as int, i as int).push(
                    c,
                ));
            }
        }
        i = i + 1;
    }
    let line = text.substring_char(start, n);
    read_line(store, line, hashes, f);
    proof {
        assert(t.take(n as int) =~= t);
        lemma_split_lines_nonempty(t);
    }
}

/// Reads the tree whose root node is `root`, appending the block hashes it
/// names, in order, to `hashes`. Nesting deeper than the number of stored
/// objects can only come from a cycle, and is cut there.
pub fn read_tree(store: &ObjectStore, root: &str, hashes: &mut Vec<String>)
    ensures
        texts(final(hashes)@) == texts(old(hashes)@) + tree_leaves(
            store.objects(),
            root@,
            store.objects().len(),
        ),
{
    read_node(store, root, hashes, store.len());
}

/// Number of passes that reduce a non-empty `l` to its root.
pub open spec fn depth(l: Seq<Seq<char>>) -> nat
    decreases l.len(),
{
    let p = pass_ids(l);
    if p.len() > 1 {
        1 + depth(p)
    } else {
        1
    }
}

/// Every node identity computed while reducing `l` is a digest.
pub open spec fn level_ids_digests(l: Seq<Seq<char>>) -> bool
    decreases l.len(),
{
    let p = pass_ids(l);
    &&& forall|i: int| 0 <= i < p.len() ==> is_digest(#[trigger] p[i])
    &&& p.len() > 1 ==> level_ids_digests(p)
}

/// Each write of `w` is what a read of its path in `objs` gives.
pub open spec fn reads_back(objs: Seq<(Seq<char>, Seq<u8>)>, w: Seq<(Seq<char>, Seq<u8>)>) -> bool {
    forall|i: int| 0 <= i < w.len() ==> lookup(objs, (#[trigger] w[i]).0) == Some(w[i].1)
}

pub open spec fn no_newline(x: Seq<char>) -> bool {
    forall|i: int| 0 <= i < x.len() ==> x[i] != '\n'
}

/// What reading one record `{label} {c}` yields.
pub open spec fn record_leaves(
    objs: Seq<(Seq<char>, Seq<u8>)>,
    label: Seq<char>,
    c: Seq<char>,
    f: nat,
) -> Seq<Seq<char>> {
    if label == "block"@ {
        seq![c]
    } else {
        tree_leaves(objs, c, f)
    }
}

/// What reading the records of a list `l` labelled `label` yields, in order.
pub open spec fn records_leaves(
    objs: Seq<(Seq<char>, Seq<u8>)>,
    l: Seq<Seq<char>>,
    label: Seq<char>,
    f: nat,
) -> Seq<Seq<char>>
    decreases l.len(),
{
    if l.len() == 0 {
        Seq::empty()
    } else {
        records_leaves(objs, l.drop_last(), label, f) + record_leaves(objs, label, l.last(), f)
    }
}

proof fn lemma_split_lines_extend(t: Seq<char>, x: Seq<char>)
    requires
        no_newline(x),
    ensures
        split_lines(t + x) == split_lines(t).update(
            split_lines(t).len() - 1,
            split_lines(t).last() + x,
        ),
    decreases x.len(),
{
    lemma_split_lines_nonempty(t);
    let s = split_lines(t);
    if x.len() == 0 {
        assert(t + x =~= t);
        assert(s.last() + x =~= s.last());
        assert(s.update(s.len() - 1, s.last() + x) =~= s);
    } else {
        let y = x.drop_last();
        let c = x.last();
        lemma_split_lines_extend(t, y);
        assert((t + x).drop_last() =~= t + y);
        assert((t + x).last() == c);
        assert(c == x[x.len() - 1]);
        assert(c != '\n');
        let r = split_lines(t + y);
        lemma_split_lines_nonempty(t + y);
        assert(split_lines(t + x) == r.update(r.len() - 1, r.last().push(c)));
        assert(s.last() + y + seq![c] =~= s.last() + x);
        assert(r.len() == s.len());
        assert(r.last() == s.last() + y);
        assert(r.last().push(c) =~= s.last() + x);
        assert(split_lines(t + x) =~= s.update(s.len() - 1, s.last() + x));
    }
}

proof fn lemma_split_lines_feed(u: Seq<char>)
    ensures
        split_lines(u + "\n"@) == split_lines(u).push(Seq::empty()),
{
    reveal_strlit("\n");
    assert((u + "\n"@).drop_last() =~= u);
}

/// Splitting `t` followed by the line `x` and a line feed.
proof fn lemma_split_lines_line(t: Seq<char>, x: Seq<char>)
    requires
        no_newline(x),
    ensures
        split_lines(t + x + "\n"@) == split_lines(t).update(
            split_lines(t).len() - 1,
            split_lines(t).last() + x,
        ).push(Seq::empty()),
{
    lemma_split_lines_extend(t, x);
    lemma_split_lines_feed(t + x);
}

proof fn lemma_digest_no_newline(c: Seq<char>)
    requires
        is_digest(c),
    ensures
        no_newline(c),
{
    assert forall|i: int| 0 <= i < c.len() implies c[i] != '\n' by {
        assert(is_hex_digit(c[i]));
    }
}

/// A record line of a digest reads as that digest, or as the node it names.
proof fn lemma_record_line(
    objs: Seq<(Seq<char>, Seq<u8>)>,
    label: Seq<char>,
    c: Seq<char>,
    f: nat,
)
    requires
        label == "block"@ || label == "tree"@,
        is_digest(c),
    ensures
        no_newline(label + " "@ + c),
        line_leaves(objs, label + " "@ + c, f) == record_leaves(objs, label, c, f),
{
    reveal_strlit("block");
    reveal_strlit("tree");
    reveal_strlit(" ");
    lemma_digest_no_newline(c);
    let x = label + " "@ + c;
    assert(no_newline(x)) by {
        assert forall|i: int| 0 <= i < x.len() implies x[i] != '\n' by {
            if i >= label.len() + 1 {
                assert(x[i] == c[i - label.len() - 1]);
            }
        }
    }
    if label == "block"@ {
        assert(x.take(4)[3] == 'c');
        assert("tree"@[3] == 'e');
        assert(!is_tree_line(x));
        assert(x.take(5) =~= "block"@);
        assert(x.skip(6) =~= c);
    } else {
        assert(x.take(4) =~= "tree"@);
        assert(x.skip(5) =~= c);
    }
}

/// Reading the `i`-th node written by a pass over `l` yields what its records name.
proof fn lemma_read_node(
    objs: Seq<(Seq<char>, Seq<u8>)>,
    l: Seq<Seq<char>>,
    label: Seq<char>,
    i: int,
    f: nat,
)
    requires
        label == "block"@ || label == "tree"@,
        0 <= i < pass_len(l.len()),
        forall|j: int| 0 <= j < l.len() ==> is_digest(#[trigger] l[j]),
        is_digest(node_id(l, i)),
        lookup(objs, object_path(node_id(l, i))) == Some(encode_utf8(node_text(l, label, i))),
        f >= 1,
    ensures
        tree_leaves(objs, node_id(l, i), f) == (if is_pair(l.len(), i) {
            record_leaves(objs, label, l[2 * i], (f - 1) as nat) + record_leaves(
                objs,
                label,
                l[2 * i + 1],
                (f - 1) as nat,
            )
        } else {
            record_leaves(objs, label, l[2 * i], (f - 1) as nat)
        }),
{
    let g = (f - 1) as nat;
    let e = Seq::<char>::empty();
    let x1 = label + " "@ + l[2 * i];
    lemma_record_line(objs, label, l[2 * i], g);
    assert(split_lines(e) == seq![e]);
    lemma_split_lines_line(e, x1);
    assert(e + x1 =~= x1);
    assert(seq![e].update(0, e + x1) =~= seq![x1]);
    assert(node_line(label, l[2 * i]) =~= e + x1 + "\n"@);
    let s1 = seq![x1, e];
    assert(split_lines(node_line(label, l[2 * i])) =~= s1);
    assert(lines_leaves(objs, seq![e], g) == lines_leaves(objs, Seq::empty(), g) + line_leaves(
        objs,
        e,
        g,
    )) by {
        assert(seq![e].drop_last() =~= Seq::<Seq<char>>::empty());
    }
    assert(lines_leaves(objs, seq![e], g) =~= Seq::<Seq<char>>::empty());
    if is_pair(l.len(), i) {
        let x2 = label + " "@ + l[2 * i + 1];
        lemma_record_line(objs, label, l[2 * i + 1], g);
        lemma_split_lines_line(node_line(label, l[2 * i]), x2);
        assert(node_text(l, label, i) =~= node_line(label, l[2 * i]) + x2 + "\n"@);
        assert(s1.update(1, e + x2) =~= seq![x1, x2]);
        let s2 = seq![x1, x2, e];
        assert(split_lines(node_text(l, label, i)) =~= s2);
        assert(s2.drop_last() =~= seq![x1, x2]);
        assert(seq![x1, x2].drop_last() =~= seq![x1]);
        assert(seq![x1].drop_last() =~= Seq::<Seq<char>>::empty());
        assert(line_leaves(objs, e, g) == Seq::<Seq<char>>::empty());
        assert(lines_leaves(objs, seq![x1], g) == lines_leaves(objs, Seq::empty(), g) + line_leaves(
            objs,
            x1,
            g,
        ));
        assert(lines_leaves(objs, seq![x1], g) =~= line_leaves(objs, x1, g));
        assert(lines_leaves(objs, seq![x1, x2], g) == lines_leaves(objs, seq![x1], g) + line_leaves(
            objs,
            x2,
            g,
        ));
        assert(lines_leaves(objs, s2, g) == lines_leaves(objs, seq![x1, x2], g) + line_leaves(
            objs,
            e,
            g,
        ));
        assert(lines_leaves(objs, s2, g) =~= line_leaves(objs, x1, g) + line_leaves(objs, x2, g));
    } else {
        assert(s1.drop_last() =~= seq![x1]);
        assert(seq![x1].drop_last() =~= Seq::<Seq<char>>::empty());
        assert(line_leaves(objs, e, g) == Seq::<Seq<char>>::empty());
        assert(lines_leaves(objs, seq![x1], g) == lines_leaves(objs, Seq::empty(), g) + line_leaves(
            objs,
            x1,
            g,
        ));
        assert(lines_leaves(objs, s1, g) == lines_leaves(objs, seq![x1], g) + line_leaves(
            objs,
            e,
            g,
        ));
        assert(lines_leaves(objs, s1, g) =~= line_leaves(objs, x1, g));
    }
}

proof fn lemma_pass_prefix(
    objs: Seq<(Seq<char>, Seq<u8>)>,
    l: Seq<Seq<char>>,
    label: Seq<char>,
    f: nat,
    k: int,
)
    requires
        label == "block"@ || label == "tree"@,
        forall|j: int| 0 <= j < l.len() ==> is_digest(#[trigger] l[j]),
        forall|j: int| 0 <= j < pass_ids(l).len() ==> is_digest(#[trigger] pass_ids(l)[j]),
        reads_back(objs, pass_writes(l, label)),
        f >= 1,
        0 <= k <= pass_len(l.len()),
    ensures
        records_leaves(objs, pass_ids(l).take(k), "tree"@, f) == records_leaves(
            objs,
            l.take(if 2 * k < l.len() {
                2 * k
            } else {
                l.len() as int
            }),
            label,
            (f - 1) as nat,
        ),
    decreases k,
{
    reveal_strlit("block");
    reveal_strlit("tree");
    let g = (f - 1) as nat;
    let p = pass_ids(l);
    let n = l.len() as int;
    if k == 0 {
        assert(p.take(0) =~= Seq::<Seq<char>>::empty());
        assert(l.take(0) =~= Seq::<Seq<char>>::empty());
    } else {
        let i = k - 1;
        lemma_pass_prefix(objs, l, label, f, i);
        assert(pass_writes(l, label)[i] == (
            object_path(node_id(l, i)),
            encode_utf8(node_text(l, label, i)),
        ));
        assert(p[i] == node_id(l, i));
        lemma_read_node(objs, l, label, i, f);
        assert(p.take(k).drop_last() =~= p.take(i));
        assert(p.take(k).last() == p[i]);
        assert("tree"@ != "block"@);
        assert(record_leaves(objs, "tree"@, p[i], f) == tree_leaves(objs, p[i], f));
        if is_pair(l.len(), i) {
            assert(l.take(2 * k).drop_last() =~= l.take(2 * k - 1));
            assert(l.take(2 * k - 1).drop_last() =~= l.take(2 * i));
            assert(l.take(2 * k).last() == l[2 * i + 1]);
            assert(l.take(2 * k - 1).last() == l[2 * i]);
            let a = records_leaves(objs, l.take(2 * i), label, g);
            let b = record_leaves(objs, label, l[2 * i], g);
            let c = record_leaves(objs, label, l[2 * i + 1], g);
            assert(records_leaves(objs, p.take(k), "tree"@, f) == records_leaves(
                objs,
                p.take(i),
                "tree"@,
                f,
            ) + tree_leaves(objs, p[i], f));
            assert(records_leaves(objs, p.take(k), "tree"@, f) == a + (b + c));
            assert(records_leaves(objs, l.take(2 * k - 1), label, g) == a + b);
            assert(records_leaves(objs, l.take(2 * k), label, g) == a + b + c);
            assert(a + (b + c) =~= a + b + c);
        } else {
            assert(n == 2 * k - 1);
            assert(l.take(n) =~= l.take(2 * k - 1));
            assert(l.take(2 * k - 1).drop_last() =~= l.take(2 * i));
            assert(l.take(2 * k - 1).last() == l[2 * i]);
            assert(records_leaves(objs, p.take(k), "tree"@, f) == records_leaves(
                objs,
                p.take(i),
                "tree"@,
                f,
            ) + tree_leaves(objs, p[i], f));
            assert(records_leaves(objs, l.take(2 * k - 1), label, g) == records_leaves(
                objs,
                l.take(2 * i),
                label,
                g,
            ) + record_leaves(objs, label, l[2 * i], g));
        }
    }
}

proof fn lemma_records_of_blocks(objs: Seq<(Seq<char>, Seq<u8>)>, l: Seq<Seq<char>>, f: nat)
    ensures
        records_leaves(objs, l, "block"@, f) == l,
    decreases l.len(),
{
    if l.len() > 0 {
        lemma_records_of_blocks(objs, l.drop_last(), f);
        assert(l.drop_last().push(l.last()) =~= l);
    }
}

proof fn lemma_depth_bound(l: Seq<Seq<char>>, label: Seq<char>)
    requires
        l.len() >= 1,
    ensures
        1 <= depth(l) <= tree_writes(l, label).len(),
    decreases l.len(),
{
    let p = pass_ids(l);
    if p.len() > 1 {
        lemma_depth_bound(p, "tree"@);
    }
}

/// Reading the root of a tree written for `l` yields the records of `l`,
/// provided every node write still reads back.
#[verifier::rlimit(40)]
proof fn lemma_read_reduced(
    objs: Seq<(Seq<char>, Seq<u8>)>,
    l: Seq<Seq<char>>,
    label: Seq<char>,
    fuel: nat,
)
    requires
        label == "block"@ || label == "tree"@,
        l.len() >= 1,
        forall|j: int| 0 <= j < l.len() ==> is_digest(#[trigger] l[j]),
        level_ids_digests(l),
        reads_back(objs, tree_writes(l, label)),
        fuel >= depth(l),
    ensures
        tree_leaves(objs, reduce_root(l), fuel) == records_leaves(
            objs,
            l,
            label,
            (fuel - depth(l)) as nat,
        ),
    decreases l.len(),
{
    reveal_strlit("block");
    reveal_strlit("tree");
    let p = pass_ids(l);
    let pw = pass_writes(l, label);
    let tw = tree_writes(l, label);
    assert(reads_back(objs, pw)) by {
        assert forall|i: int| 0 <= i < pw.len() implies lookup(objs, (#[trigger] pw[i]).0) == Some(
            pw[i].1,
        ) by {
            assert(tw[i] == pw[i]);
        }
    }
    if p.len() > 1 {
        let tp = tree_writes(p, "tree"@);
        assert(tw == pw + tp);
        assert(reads_back(objs, tp)) by {
            assert forall|i: int| 0 <= i < tp.len() implies lookup(objs, (#[trigger] tp[i]).0)
                == Some(tp[i].1) by {
                assert(tw[pw.len() + i] == tp[i]);
            }
        }
        lemma_read_reduced(objs, p, "tree"@, fuel);
        let f = (fuel - depth(p)) as nat;
        lemma_pass_prefix(objs, l, label, f, p.len() as int);
        assert(p.take(p.len() as int) =~= p);
        assert(l.take(l.len() as int) =~= l);
    } else {
        assert(reduce_root(l) == p[0]);
        lemma_pass_prefix(objs, l, label, fuel, p.len() as int);
        assert(p.take(p.len() as int) =~= p);
        assert(l.take(l.len() as int) =~= l);
        assert(p.drop_last() =~= Seq::<Seq<char>>::empty());
        assert("tree"@.len() == 4 && "block"@.len() == 5) by {
            reveal_strlit("block");
            reveal_strlit("tree");
        }
        assert("tree"@ != "block"@);
        assert(records_leaves(objs, p, "tree"@, fuel) == records_leaves(
            objs,
            p.drop_last(),
            "tree"@,
            fuel,
        ) + record_leaves(objs, "tree"@, p.last(), fuel));
        assert(records_leaves(objs, p, "tree"@, fuel) =~= tree_leaves(objs, p[0], fuel));
    }
}

/// Reading back a tree written for a non-empty list of digests yields that
/// list, in order, provided no later write replaced one of its nodes.
pub proof fn lemma_tree_round_trip(objs: Seq<(Seq<char>, Seq<u8>)>, l: Seq<Seq<char>>)
    requires
        l.len() >= 1,
        forall|j: int| 0 <= j < l.len() ==> is_digest(#[trigger] l[j]),
        level_ids_digests(l),
        reads_back(objs, tree_writes(l, "block"@)),
        objs.len() >= tree_writes(l, "block"@).len(),
    ensures
        tree_leaves(objs, merkle_root(l), objs.len()) == l,
{
    lemma_depth_bound(l, "block"@);
    lemma_read_reduced(objs, l, "block"@, objs.len());
    lemma_records_of_blocks(objs, l, (objs.len() - depth(l)) as nat);
}

} // verus!
