use vstd::prelude::*;
use vstd::slice::{slice_subrange, slice_to_vec};
use vstd::string::*;

use crate::compression::{compress_block, snappy_frame, uncompress_block, BLOCK_SIZE};
use crate::error::StoreError;
use crate::fs::{get_path_from_hash, object_path};
use crate::hash::{hash_block, is_digest, sha1_hex, texts};
use crate::store::{consistent, lemma_lookup_append, lemma_lookup_consistent, lookup, ObjectStore};
use vstd::arithmetic::div_mod::lemma_fundamental_div_mod_converse;

verus! {

/// The positional chunks of `b` for block size `s`: every chunk holds `s`
/// bytes but the last, which holds what remains.
pub open spec fn chunks(b: Seq<u8>, s: nat) -> Seq<Seq<u8>>
    decreases b.len(),
{
    if s == 0 || b.len() == 0 {
        Seq::empty()
    } else if b.len() <= s {
        seq![b]
    } else {
        seq![b.take(s as int)] + chunks(b.skip(s as int), s)
    }
}

/// The digests of the blocks of `b`, in input order.
pub open spec fn block_hashes(b: Seq<u8>) -> Seq<Seq<char>> {
    chunks(b, BLOCK_SIZE as nat).map_values(|c: Seq<u8>| sha1_hex(c))
}

/// The writes that persisting the blocks of `b` makes, in input order.
pub open spec fn block_writes(b: Seq<u8>) -> Seq<(Seq<char>, Seq<u8>)> {
    chunks(b, BLOCK_SIZE as nat).map_values(
        |c: Seq<u8>| (object_path(sha1_hex(c)), snappy_frame(c)),
    )
}

/// `h` names a stored object that decodes to the block `b`.
pub open spec fn stored_block(objs: Seq<(Seq<char>, Seq<u8>)>, h: Seq<char>, b: Seq<u8>) -> bool {
    &&& h.len() >= 2
    &&& lookup(objs, object_path(h)) == Some(snappy_frame(b))
    &&& b.len() <= BLOCK_SIZE
}

/// The concatenation of a list of blocks.
pub open spec fn flatten(bs: Seq<Seq<u8>>) -> Seq<u8>
    decreases bs.len(),
{
    if bs.len() == 0 {
        Seq::empty()
    } else {
        flatten(bs.drop_last()) + bs.last()
    }
}

/// A view over a contiguous range of bytes of at most one block.
pub struct Block<'buf> {
    data: &'buf [u8],
}

impl<'buf> Block<'buf> {
    pub closed spec fn bytes(&self) -> Seq<u8> {
        self.data@
    }

    pub fn from(data: &'buf [u8]) -> (r: Self)
        ensures
            r.bytes() == data@,
    {
        Block { data }
    }

    pub fn hash(&self) -> (r: String)
        ensures
            r@ == sha1_hex(self.bytes()),
            is_digest(r@),
    {
        hash_block(self.data)
    }

    /// Writes the compressed block to the sink `w`.
    pub fn write(&self, w: &mut Vec<u8>)
        ensures
            final(w)@ == old(w)@ + snappy_frame(self.bytes()),
    {
        compress_block(w, self.data);
    }

    pub fn data(&self) -> (r: &'buf [u8])
        ensures
            r@ == self.bytes(),
    {
        self.data
    }
}

/// Splits byte streams into blocks, and reads and joins stored blocks.
pub struct BlockManager {}

impl BlockManager {
    pub fn new() -> (r: Self) {
        BlockManager {}
    }

    /// Splits `input` into blocks of `BLOCK_SIZE` bytes (the last may be
    /// shorter) and returns their digests in order. With `create` set, each
    /// block is also compressed and stored under its digest's path.
    pub fn split(&self, input: &[u8], create: bool, store: &mut ObjectStore) -> (r: Vec<String>)
        ensures
            texts(r@) == block_hashes(input@),
            forall|i: int| 0 <= i < r@.len() ==> is_digest(#[trigger] r@[i]@),
            final(store).objects() == old(store).objects() + (if create {
                block_writes(input@)
            } else {
                Seq::empty()
            }),
            final(store).index_lines() == old(store).index_lines(),
    {
        let n = input.len();
        let mut hashes: Vec<String> = Vec::new();
        let mut start: usize = 0;
        assert(input@.skip(0) =~= input@);
        while start < n
            invariant
                n == input@.len(),
                start <= n,
                block_hashes(input@) == texts(hashes@) + block_hashes(input@.skip(start as int)),
                forall|i: int| 0 <= i < hashes@.len() ==> is_digest(#[trigger] hashes@[i]@),
                store.objects() + (if create {
                    block_writes(input@.skip(start as int))
                } else {
                    Seq::empty()
                }) == old(store).objects() + (if create {
                    block_writes(input@)
                } else {
                    Seq::empty()
                }),
                store.index_lines() == old(store).index_lines(),
            decreases n - start,
        {
            let end: usize = if n - start <= BLOCK_SIZE {
                n
            } else {
                start + BLOCK_SIZE
            };
            let chunk = slice_subrange(input, start, end);
            let block = Block::from(chunk);
            let hash = block.hash();
            let ghost rest = input@.skip(start as int);
            let ghost tail = input@.skip(end as int);
            proof {
                if rest.len() <= BLOCK_SIZE {
                    assert(chunk@ =~= rest);
                    assert(tail.len() == 0);
                    assert(chunks(tail, BLOCK_SIZE as nat) =~= Seq::<Seq<u8>>::empty());
                } else {
                    assert(chunk@ =~= rest.take(BLOCK_SIZE as int));
                    assert(rest.skip(BLOCK_SIZE as int) =~= tail);
                }
                assert(chunks(rest, BLOCK_SIZE as nat) =~= seq![chunk@] + chunks(
                    tail,
                    BLOCK_SIZE as nat,
                ));
                assert(block_hashes(rest) =~= seq![hash@] + block_hashes(tail));
                assert(block_writes(rest) =~= seq![(object_path(hash@), snappy_frame(chunk@))]
                    + block_writes(tail));
            }
            if create {
                let p = get_path_from_hash(hash.as_str());
                let mut bytes: Vec<u8> = Vec::new();
                block.write(&mut bytes);
                assert(bytes@ =~= snappy_frame(chunk@));
                store.put(p, bytes);
            }
            let ghost before = hashes@;
            hashes.push(hash);
            assert(texts(hashes@) =~= texts(before) + seq![hash@]);
            start = end;
        }
        assert(input@.skip(n as int) =~= Seq::<u8>::empty());
        assert(chunks(input@.skip(n as int), BLOCK_SIZE as nat) =~= Seq::<Seq<u8>>::empty());
        assert(texts(hashes@) =~= block_hashes(input@));
        hashes
    }

    /// Reads and decompresses the block stored under `hash`.
    pub fn read_chunk(&self, store: &ObjectStore, hash: &str) -> (r: Result<Vec<u8>, StoreError>)
        ensures
            (r == Err::<Vec<u8>, StoreError>(StoreError::NotFound)) <==> (hash@.len() < 2
                || lookup(store.objects(), object_path(hash@)) is None),
            forall|b: Seq<u8>|
                stored_block(store.objects(), hash@, b) ==> (r is Ok && r->Ok_0@ == b),
            r is Ok ==> r->Ok_0@.len() <= BLOCK_SIZE,
    {
        if hash.unicode_len() < 2 {
            return Err(StoreError::NotFound);
        }
        let path = get_path_from_hash(hash);
        match store.get(path.as_str()) {
            None => Err(StoreError::NotFound),
            Some(enc) => uncompress_block(enc.as_slice()),
        }
    }

    /// Reads the blocks named by `hashes`, in order, and appends their bytes
    /// to `w`. Stops at the first digest that names no readable block.
    pub fn join(&self, store: &ObjectStore, hashes: Vec<String>, w: &mut Vec<u8>) -> (r: Result<
        (),
        StoreError,
    >)
        ensures
            forall|bs: Seq<Seq<u8>>|
                bs.len() == hashes@.len() && (forall|i: int|
                    0 <= i < bs.len() ==> stored_block(store.objects(), hashes@[i]@, #[trigger] bs[i]))
                    ==> (r is Ok && final(w)@ == old(w)@ + #[trigger] flatten(bs)),
            r == Err::<(), StoreError>(StoreError::NotFound) ==> exists|i: int|
                0 <= i < hashes@.len() && (hashes@[i]@.len() < 2 || lookup(
                    store.objects(),
                    object_path(#[trigger] hashes@[i]@),
                ) is None),
    {
        let ghost objs = store.objects();
        let mut i: usize = 0;
        assert forall|bs: Seq<Seq<u8>>| bs.len() == hashes@.len() implies #[trigger] flatten(
            bs.take(0),
        ) == Seq::<u8>::empty() by {
            assert(bs.take(0) =~= Seq::<Seq<u8>>::empty());
        }
        assert(w@ =~= old(w)@ + Seq::<u8>::empty());
        while i < hashes.len()
            invariant
                i <= hashes@.len(),
                objs == store.objects(),
                forall|bs: Seq<Seq<u8>>|
                    bs.len() == hashes@.len() && (forall|j: int|
                        0 <= j < bs.len() ==> stored_block(objs, hashes@[j]@, #[trigger] bs[j]))
                        ==> w@ == old(w)@ + #[trigger] flatten(bs.take(i as int)),
            decreases hashes@.len() - i,
        {
            let data = match self.read_chunk(store, hashes[i].as_str()) {
                Ok(d) => d,
                Err(e) => {
                    assert forall|bs: Seq<Seq<u8>>|
                        #[trigger] bs.len() == hashes@.len() && (forall|j: int|
                            0 <= j < bs.len() ==> stored_block(objs, hashes@[j]@, #[trigger] bs[j]))
                            implies false by {
                        assert(stored_block(objs, hashes@[i as int]@, bs[i as int]));
                    }
                    return Err(e);
                },
            };
            let block = Block::from(data.as_slice());
            let bytes = block.data();
            let ghost prev = w@;
            let mut chunk = slice_to_vec(bytes);
            w.append(&mut chunk);
            assert forall|bs: Seq<Seq<u8>>|
                bs.len() == hashes@.len() && (forall|j: int|
                    0 <= j < bs.len() ==> stored_block(objs, hashes@[j]@, #[trigger] bs[j]))
                    implies w@ == old(w)@ + #[trigger] flatten(bs.take(i + 1)) by {
                assert(stored_block(objs, hashes@[i as int]@, bs[i as int]));
                assert(prev == old(w)@ + flatten(bs.take(i as int)));
                assert(data@ == bs[i as int]);
                assert(bs.take(i + 1).drop_last() =~= bs.take(i as int));
                assert(bs.take(i + 1).last() == bs[i as int]);
                assert(w@ =~= prev + bs[i as int]);
            }
            i = i + 1;
        }
        assert forall|bs: Seq<Seq<u8>>|
            bs.len() == hashes@.len() && (forall|j: int|
                0 <= j < bs.len() ==> stored_block(objs, hashes@[j]@, #[trigger] bs[j]))
                implies w@ == old(w)@ + #[trigger] flatten(bs) by {
            assert(bs.take(i as int) =~= bs);
            assert(w@ == old(w)@ + flatten(bs.take(i as int)));
        }
        Ok(())
    }
}

proof fn lemma_flatten_single(x: Seq<u8>)
    ensures
        flatten(seq![x]) == x,
{
    let y = seq![x];
    assert(y.drop_last() =~= Seq::<Seq<u8>>::empty());
    assert(flatten(y.drop_last()) == Seq::<u8>::empty());
    assert(flatten(y) == flatten(y.drop_last()) + y.last());
    assert(Seq::<u8>::empty() + x =~= x);
}

proof fn lemma_flatten_prepend(x: Seq<u8>, r: Seq<Seq<u8>>)
    ensures
        flatten(seq![x] + r) == x + flatten(r),
    decreases r.len(),
{
    lemma_flatten_single(x);
    if r.len() == 0 {
        assert(seq![x] + r =~= seq![x]);
        assert(flatten(r) == Seq::<u8>::empty());
        assert(x + flatten(r) =~= x);
    } else {
        let y = seq![x] + r;
        assert(y.drop_last() =~= seq![x] + r.drop_last());
        assert(y.last() == r.last());
        lemma_flatten_prepend(x, r.drop_last());
        assert(flatten(y) == flatten(y.drop_last()) + y.last());
        assert(flatten(r) == flatten(r.drop_last()) + r.last());
        assert(x + flatten(r) =~= x + flatten(r.drop_last()) + r.last());
    }
}

/// Splitting `L` bytes with block size `S` gives `ceil(L / S)` chunks, each of
/// `S` bytes but the last, which is not empty; together they are the input.
pub proof fn lemma_chunk_count(b: Seq<u8>, s: nat)
    requires
        s > 0,
    ensures
        chunks(b, s).len() == (b.len() + s - 1) / (s as int),
        forall|i: int| 0 <= i < chunks(b, s).len() - 1 ==> (#[trigger] chunks(b, s)[i]).len() == s,
        chunks(b, s).len() > 0 ==> 0 < chunks(b, s).last().len() <= s,
        flatten(chunks(b, s)) == b,
    decreases b.len(),
{
    let n = b.len() as int;
    if n == 0 {
        lemma_fundamental_div_mod_converse(n + s - 1, s as int, 0, s - 1);
    } else if n <= s {
        lemma_fundamental_div_mod_converse(n + s - 1, s as int, 1, n - 1);
        lemma_flatten_single(b);
    } else {
        let rest = b.skip(s as int);
        lemma_chunk_count(rest, s);
        let q = (rest.len() + s - 1) / (s as int);
        let r = (rest.len() + s - 1) % (s as int);
        vstd::arithmetic::div_mod::lemma_fundamental_div_mod(rest.len() + s - 1, s as int);
        vstd::arithmetic::div_mod::lemma_mod_pos_bound(rest.len() + s - 1, s as int);
        assert(rest.len() + s - 1 == q * s + r) by (nonlinear_arith)
            requires
                rest.len() + s - 1 == s * q + r,
        ;
        assert((q + 1) * s == q * s + s) by (nonlinear_arith);
        lemma_fundamental_div_mod_converse(n + s - 1, s as int, q + 1, r);
        let c = chunks(b, s);
        assert(c == seq![b.take(s as int)] + chunks(rest, s));
        assert forall|i: int| 0 <= i < c.len() - 1 implies (#[trigger] c[i]).len() == s by {
            if i > 0 {
                assert(c[i] == chunks(rest, s)[i - 1]);
            }
        }
        lemma_flatten_prepend(b.take(s as int), chunks(rest, s));
        assert(b.take(s as int) + rest =~= b);
    }
}

/// Persisting the same bytes twice stores byte-identical objects under the
/// same digests: every path reads the same after the second time as after the
/// first.
pub proof fn lemma_idempotent_storage(
    s0: ObjectStore,
    s1: ObjectStore,
    s2: ObjectStore,
    input: Seq<u8>,
    k: Seq<char>,
)
    requires
        s1.objects() == s0.objects() + block_writes(input),
        s2.objects() == s1.objects() + block_writes(input),
    ensures
        lookup(s2.objects(), k) == lookup(s1.objects(), k),
{
    lemma_lookup_append(s1.objects(), block_writes(input), k);
    lemma_lookup_append(s0.objects(), block_writes(input), k);
}

/// Once `input` is split with its blocks persisted, and no two of its blocks
/// share a path with different contents, each returned digest names the stored
/// block at its position, and the blocks together are the input: joining the
/// digests gives the input back.
pub proof fn lemma_blocks_round_trip(
    s0: ObjectStore,
    s1: ObjectStore,
    input: Seq<u8>,
    hashes: Seq<String>,
)
    requires
        texts(hashes) == block_hashes(input),
        forall|i: int| 0 <= i < hashes.len() ==> is_digest(#[trigger] hashes[i]@),
        s1.objects() == s0.objects() + block_writes(input),
        consistent(block_writes(input)),
    ensures
        chunks(input, BLOCK_SIZE as nat).len() == hashes.len(),
        forall|i: int|
            0 <= i < hashes.len() ==> stored_block(
                s1.objects(),
                hashes[i]@,
                #[trigger] chunks(input, BLOCK_SIZE as nat)[i],
            ),
        flatten(chunks(input, BLOCK_SIZE as nat)) == input,
{
    let bs = chunks(input, BLOCK_SIZE as nat);
    let w = block_writes(input);
    lemma_chunk_count(input, BLOCK_SIZE as nat);
    assert(texts(hashes).len() == hashes.len());
    assert forall|i: int| 0 <= i < hashes.len() implies stored_block(
        s1.objects(),
        hashes[i]@,
        #[trigger] bs[i],
    ) by {
        assert(texts(hashes)[i] == hashes[i]@);
        assert(w[i] == (object_path(sha1_hex(bs[i])), snappy_frame(bs[i])));
        lemma_lookup_consistent(s0.objects(), w, i);
        if i < bs.len() - 1 {
            assert(bs[i].len() == BLOCK_SIZE);
        }
    }
}

} // verus!
