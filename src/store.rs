use vstd::prelude::*;

verus! {

/// The object last stored under `key`, if any: later entries shadow earlier ones.
pub open spec fn lookup(objs: Seq<(Seq<char>, Seq<u8>)>, key: Seq<char>) -> Option<Seq<u8>>
    decreases objs.len(),
{
    if objs.len() == 0 {
        None
    } else if objs.last().0 == key {
        Some(objs.last().1)
    } else {
        lookup(objs.drop_last(), key)
    }
}

/// No two writes of `w` put different bytes under the same path.
pub open spec fn consistent(w: Seq<(Seq<char>, Seq<u8>)>) -> bool {
    forall|i: int, j: int|
        0 <= i < w.len() && 0 <= j < w.len() && (#[trigger] w[i]).0 == (#[trigger] w[j]).0 ==> w[i].1
            == w[j].1
}

/// A read after a batch of writes sees the batch's last write to its path, or
/// else what it saw before the batch.
pub proof fn lemma_lookup_append(a: Seq<(Seq<char>, Seq<u8>)>, w: Seq<(Seq<char>, Seq<u8>)>, k: Seq<char>)
    ensures
        lookup(a + w, k) == (if lookup(w, k) is Some {
            lookup(w, k)
        } else {
            lookup(a, k)
        }),
    decreases w.len(),
{
    if w.len() == 0 {
        assert(a + w =~= a);
    } else {
        assert((a + w).drop_last() =~= a + w.drop_last());
        lemma_lookup_append(a, w.drop_last(), k);
    }
}

/// A path written in `w` reads back as one of the writes to it.
pub proof fn lemma_lookup_written(w: Seq<(Seq<char>, Seq<u8>)>, i: int)
    requires
        0 <= i < w.len(),
    ensures
        exists|j: int| 0 <= j < w.len() && w[j].0 == w[i].0 && lookup(w, w[i].0) == Some(w[j].1),
    decreases w.len(),
{
    if w.last().0 == w[i].0 {
        assert(w[w.len() - 1].0 == w[i].0);
    } else {
        lemma_lookup_written(w.drop_last(), i);
        let j = choose|j: int|
            0 <= j < w.drop_last().len() && w.drop_last()[j].0 == w[i].0 && lookup(
                w.drop_last(),
                w[i].0,
            ) == Some(w.drop_last()[j].1);
        assert(w[j] == w.drop_last()[j]);
    }
}

/// After a consistent batch of writes, each written path reads back what was
/// written to it, whatever the store held before.
pub proof fn lemma_lookup_consistent(a: Seq<(Seq<char>, Seq<u8>)>, w: Seq<(Seq<char>, Seq<u8>)>, i: int)
    requires
        consistent(w),
        0 <= i < w.len(),
    ensures
        lookup(a + w, w[i].0) == Some(w[i].1),
{
    lemma_lookup_written(w, i);
    lemma_lookup_append(a, w, w[i].0);
}

/// A key-addressed byte store standing for the working directory: every write
/// is recorded, in order, as a (path, bytes) entry, and a read sees the last
/// write to its path. The append-only index is kept beside the objects as a
/// list of lines.
pub struct ObjectStore {
    entries: Vec<(String, Vec<u8>)>,
    index: Vec<String>,
}

impl ObjectStore {
    /// The writes made so far, oldest first.
    pub closed spec fn objects(&self) -> Seq<(Seq<char>, Seq<u8>)> {
        self.entries@.map_values(|e: (String, Vec<u8>)| (e.0@, e.1@))
    }

    /// The lines of the index, oldest first.
    pub closed spec fn index_lines(&self) -> Seq<Seq<char>> {
        self.index@.map_values(|l: String| l@)
    }

    pub fn new() -> (r: Self)
        ensures
            r.objects() == Seq::<(Seq<char>, Seq<u8>)>::empty(),
            r.index_lines() == Seq::<Seq<char>>::empty(),
    {
        let r = ObjectStore { entries: Vec::new(), index: Vec::new() };
        assert(r.objects() =~= Seq::<(Seq<char>, Seq<u8>)>::empty());
        assert(r.index_lines() =~= Seq::<Seq<char>>::empty());
        r
    }

    /// Number of writes recorded.
    pub fn len(&self) -> (r: usize)
        ensures
            r == self.objects().len(),
    {
        self.entries.len()
    }

    /// Stores `data` under `key`, replacing what a read of `key` saw before.
    pub fn put(&mut self, key: String, data: Vec<u8>)
        ensures
            final(self).objects() == old(self).objects().push((key@, data@)),
            final(self).index_lines() == old(self).index_lines(),
    {
        let ghost k = key@;
        let ghost d = data@;
        self.entries.push((key, data));
        assert(self.objects() =~= old(self).objects().push((k, d)));
    }

    /// Reads the object stored under `key`.
    pub fn get(&self, key: &str) -> (r: Option<&Vec<u8>>)
        ensures
            match r {
                Some(v) => lookup(self.objects(), key@) == Some(v@),
                None => lookup(self.objects(), key@) is None,
            },
    {
        let k = key.to_owned();
        let mut i = self.entries.len();
        assert(self.objects().take(i as int) =~= self.objects());
        while i > 0
            invariant
                i <= self.entries.len(),
                k@ == key@,
                lookup(self.objects(), key@) == lookup(self.objects().take(i as int), key@),
            decreases i,
        {
            let ghost objs = self.objects().take(i as int);
            assert(objs.drop_last() =~= self.objects().take(i - 1));
            if self.entries[i - 1].0 == k {
                return Some(&self.entries[i - 1].1);
            }
            i = i - 1;
        }
        None
    }

    /// The recorded writes, oldest first.
    pub fn entries(&self) -> (r: &Vec<(String, Vec<u8>)>)
        ensures
            r@.map_values(|e: (String, Vec<u8>)| (e.0@, e.1@)) == self.objects(),
    {
        &self.entries
    }

    /// Appends one line to the index.
    pub fn append_index_line(&mut self, line: String)
        ensures
            final(self).index_lines() == old(self).index_lines().push(line@),
            final(self).objects() == old(self).objects(),
    {
        let ghost l = line@;
        self.index.push(line);
        assert(self.index_lines() =~= old(self).index_lines().push(l));
        assert(self.objects() =~= old(self).objects());
    }

    /// The index lines, oldest first.
    pub fn index(&self) -> (r: &Vec<String>)
        ensures
            r@.map_values(|l: String| l@) == self.index_lines(),
    {
        &self.index
    }
}

} // verus!
