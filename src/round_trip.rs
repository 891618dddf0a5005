use vstd::prelude::*;

use crate::block::{block_hashes, block_writes, chunks, flatten, lemma_chunk_count, stored_block};
use crate::compression::{snappy_frame, BLOCK_SIZE};
use crate::fs::object_path;
use crate::hash::{is_digest, sha1_hex, texts};
use crate::store::{consistent, lemma_lookup_consistent, lookup, ObjectStore};
use crate::tree::{
    level_ids_digests, lemma_tree_round_trip, merkle_root, reads_back, stored_tree, tree_leaves,
};

verus! {

/// Storing a file and reading it back gives the file. Starting from any store
/// `s0`, split `input` with its blocks persisted (giving `hashes` and `s1`),
/// then write the tree of `hashes` (giving `root` and `s2`). Provided no two of
/// those writes put different bytes under one path (no digest collision), and
/// for an empty input that nothing is stored under the empty root: reading the
/// tree at `root` yields `hashes`, each of which names the stored block at its
/// position, and the blocks together are `input`; so joining what the tree
/// yields gives `input` back.
pub proof fn lemma_round_trip(
    s0: ObjectStore,
    s1: ObjectStore,
    s2: ObjectStore,
    input: Seq<u8>,
    hashes: Seq<String>,
    root: Seq<char>,
)
    requires
        texts(hashes) == block_hashes(input),
        forall|i: int| 0 <= i < hashes.len() ==> is_digest(#[trigger] hashes[i]@),
        s1.objects() == s0.objects() + block_writes(input),
        root == merkle_root(texts(hashes)),
        s2.objects() == s1.objects() + stored_tree(texts(hashes)),
        hashes.len() > 0 ==> level_ids_digests(texts(hashes)),
        consistent(block_writes(input) + stored_tree(texts(hashes))),
        input.len() == 0 ==> lookup(s0.objects(), object_path(root)) is None,
    ensures
        tree_leaves(s2.objects(), root, s2.objects().len()) == texts(hashes),
        chunks(input, BLOCK_SIZE as nat).len() == hashes.len(),
        forall|i: int|
            0 <= i < hashes.len() ==> stored_block(
                s2.objects(),
                hashes[i]@,
                #[trigger] chunks(input, BLOCK_SIZE as nat)[i],
            ),
        flatten(chunks(input, BLOCK_SIZE as nat)) == input,
{
    let l = texts(hashes);
    let bs = chunks(input, BLOCK_SIZE as nat);
    let bw = block_writes(input);
    let tw = stored_tree(l);
    let w = bw + tw;
    lemma_chunk_count(input, BLOCK_SIZE as nat);
    assert(s2.objects() =~= s0.objects() + w);
    assert(l.len() == hashes.len());
    assert forall|i: int| 0 <= i < hashes.len() implies stored_block(
        s2.objects(),
        hashes[i]@,
        #[trigger] bs[i],
    ) by {
        assert(l[i] == hashes[i]@);
        assert(bw[i] == (object_path(sha1_hex(bs[i])), snappy_frame(bs[i])));
        assert(w[i] == bw[i]);
        lemma_lookup_consistent(s0.objects(), w, i);
        if i < bs.len() - 1 {
            assert(bs[i].len() == BLOCK_SIZE);
        }
    }
    if hashes.len() == 0 {
        assert(l =~= Seq::<Seq<char>>::empty());
        assert(input.len() == 0);
        assert(bw =~= Seq::<(Seq<char>, Seq<u8>)>::empty());
        assert(s2.objects() =~= s0.objects());
    } else {
        assert forall|j: int| 0 <= j < l.len() implies is_digest(#[trigger] l[j]) by {
            assert(l[j] == hashes[j]@);
        }
        assert(reads_back(s2.objects(), tw)) by {
            assert forall|j: int| 0 <= j < tw.len() implies lookup(
                s2.objects(),
                (#[trigger] tw[j]).0,
            ) == Some(tw[j].1) by {
                assert(w[bw.len() + j] == tw[j]);
                lemma_lookup_consistent(s0.objects(), w, bw.len() + j);
            }
        }
        lemma_tree_round_trip(s2.objects(), l);
    }
}

} // verus!
