use vstd::prelude::*;
use vstd::slice::slice_to_vec;

verus! {

/// A write as it is recorded: `Some(v)` puts `v`, `None` removes the key.
pub type WriteOp = Option<Seq<u8>>;

/// The value of the last pair in `s` whose key is `k`; `None` if no pair has that key.
pub open spec fn last_match<K, V>(s: Seq<(K, V)>, k: K) -> Option<V>
    decreases s.len(),
{
    if s.len() == 0 {
        None
    } else if s.last().0 == k {
        Some(s.last().1)
    } else {
        last_match(s.drop_last(), k)
    }
}

pub open spec fn op_view(o: &Option<Vec<u8>>) -> WriteOp {
    match o {
        Some(v) => Some(v@),
        None => None,
    }
}

pub open spec fn entry_view(e: (Vec<u8>, Option<Vec<u8>>)) -> (Seq<u8>, WriteOp) {
    (e.0@, op_view(&e.1))
}

/// Byte-wise equality of two keys.
pub fn bytes_eq(a: &[u8], b: &[u8]) -> (r: bool)
    ensures
        r == (a@ == b@),
{
    if a.len() != b.len() {
        return false;
    }
    let mut i: usize = 0;
    while i < a.len()
        invariant
            a@.len() == b@.len(),
            i <= a@.len(),
            forall|j: int| 0 <= j < i ==> a@[j] == b@[j],
        decreases a@.len() - i,
    {
        if a[i] != b[i] {
            return false;
        }
        i = i + 1;
    }
    assert(a@ =~= b@);
    true
}

pub fn copy_op(o: &Option<Vec<u8>>) -> (r: Option<Vec<u8>>)
    ensures
        op_view(&r) == op_view(o),
{
    match o {
        Some(v) => Some(slice_to_vec(v.as_slice())),
        None => None,
    }
}

pub proof fn lemma_last_match_push<K, V>(s: Seq<(K, V)>, e: (K, V), k: K)
    ensures
        last_match(s.push(e), k) == if k == e.0 {
            Some(e.1)
        } else {
            last_match(s, k)
        },
{
    assert(s.push(e).drop_last() =~= s);
}

pub proof fn lemma_last_match_update<K, V>(
    s: Seq<(K, V)>,
    i: int,
    e: (K, V),
    k: K,
)
    requires
        0 <= i < s.len(),
        s[i].0 == e.0,
        forall|j: int| i < j < s.len() ==> s[j].0 != e.0,
    ensures
        last_match(s.update(i, e), k) == if k == e.0 {
            Some(e.1)
        } else {
            last_match(s, k)
        },
    decreases s.len(),
{
    let t = s.update(i, e);
    if i == s.len() - 1 {
        assert(t.drop_last() =~= s.drop_last());
    } else {
        assert(t.drop_last() =~= s.drop_last().update(i, e));
        assert(t.last() == s.last());
        lemma_last_match_update(s.drop_last(), i, e, k);
    }
}

pub proof fn lemma_last_match_found<K, V>(s: Seq<(K, V)>, i: int, k: K)
    requires
        0 <= i < s.len(),
        s[i].0 == k,
        forall|j: int| i < j < s.len() ==> s[j].0 != k,
    ensures
        last_match(s, k) == Some(s[i].1),
    decreases s.len(),
{
    if i < s.len() - 1 {
        lemma_last_match_found(s.drop_last(), i, k);
    }
}

pub proof fn lemma_last_match_absent<K, V>(s: Seq<(K, V)>, k: K)
    requires
        forall|j: int| 0 <= j < s.len() ==> s[j].0 != k,
    ensures
        last_match(s, k) == None::<V>,
    decreases s.len(),
{
    if s.len() > 0 {
        lemma_last_match_absent(s.drop_last(), k);
    }
}

pub proof fn lemma_last_match_some<K, V>(s: Seq<(K, V)>, k: K)
    requires
        last_match(s, k) is Some,
    ensures
        exists|j: int| 0 <= j < s.len() && (#[trigger] s[j]).0 == k,
    decreases s.len(),
{
    if s.last().0 != k {
        lemma_last_match_some(s.drop_last(), k);
        let j = choose|j: int| 0 <= j < s.drop_last().len() && (#[trigger] s.drop_last()[j]).0 == k;
        assert(s[j] == s.drop_last()[j]);
    } else {
        assert(s[s.len() - 1].0 == k);
    }
}

/// An ordered byte-key/byte-value store, kept as the log of its latest write per key.
pub struct KvLog {
    entries: Vec<(Vec<u8>, Option<Vec<u8>>)>,
}

impl KvLog {
    pub closed spec fn log(&self) -> Seq<(Seq<u8>, WriteOp)> {
        self.entries@.map_values(|e: (Vec<u8>, Option<Vec<u8>>)| entry_view(e))
    }

    /// The latest write recorded for `k`, if any.
    pub open spec fn op_of(&self, k: Seq<u8>) -> Option<WriteOp> {
        last_match(self.log(), k)
    }

    /// The value stored under `k`.
    pub open spec fn value_of(&self, k: Seq<u8>) -> Option<Seq<u8>> {
        match self.op_of(k) {
            Some(o) => o,
            None => None,
        }
    }

    pub fn new() -> (r: KvLog)
        ensures
            forall|k: Seq<u8>| r.op_of(k) == None::<WriteOp>,
    {
        let r = KvLog { entries: Vec::new() };
        assert forall|k: Seq<u8>| r.op_of(k) == None::<WriteOp> by {
            assert(r.log().len() == 0);
        }
        r
    }

    /// How many writes the log holds.
    pub fn len(&self) -> (r: usize)
        ensures
            r == self.log().len(),
    {
        self.entries.len()
    }

    /// The key of the `i`-th recorded write.
    pub fn key_at(&self, i: usize) -> (r: &Vec<u8>)
        requires
            i < self.log().len(),
        ensures
            r@ == self.log()[i as int].0,
    {
        assert(self.log()[i as int] == entry_view(self.entries@[i as int]));
        &self.entries[i].0
    }

    /// A key that holds a value, or was ever written, is the key of a recorded write.
    pub proof fn lemma_written(&self, k: Seq<u8>)
        requires
            self.op_of(k) is Some,
        ensures
            exists|j: int| 0 <= j < self.log().len() && (#[trigger] self.log()[j]).0 == k,
    {
        lemma_last_match_some(self.log(), k);
    }

    /// Index of the latest entry for `k`, searching from the end.
    fn find(&self, k: &[u8]) -> (r: Option<usize>)
        ensures
            match r {
                Some(i) => i < self.log().len() && self.log()[i as int].0 == k@ && forall|j: int|
                    i < j < self.log().len() ==> self.log()[j].0 != k@,
                None => forall|j: int| 0 <= j < self.log().len() ==> self.log()[j].0 != k@,
            },
    {
        let mut i: usize = self.entries.len();
        while i > 0
            invariant
                i <= self.log().len(),
                self.log().len() == self.entries@.len(),
                forall|j: int| i <= j < self.log().len() ==> self.log()[j].0 != k@,
            decreases i,
        {
            i = i - 1;
            assert(self.log()[i as int] == entry_view(self.entries@[i as int]));
            if bytes_eq(self.entries[i].0.as_slice(), k) {
                return Some(i);
            }
        }
        None
    }

    /// The latest write recorded for `k`, if any.
    pub fn get_op(&self, k: &[u8]) -> (r: Option<Option<Vec<u8>>>)
        ensures
            match r {
                Some(o) => self.op_of(k@) == Some(op_view(&o)),
                None => self.op_of(k@) == None::<WriteOp>,
            },
    {
        match self.find(k) {
            Some(i) => {
                proof {
                    lemma_last_match_found(self.log(), i as int, k@);
                }
                assert(self.log()[i as int] == entry_view(self.entries@[i as int]));
                Some(copy_op(&self.entries[i].1))
            },
            None => {
                proof {
                    lemma_last_match_absent(self.log(), k@);
                }
                None
            },
        }
    }

    /// The value stored under `k`.
    pub fn get(&self, k: &[u8]) -> (r: Option<Vec<u8>>)
        ensures
            op_view(&r) == self.value_of(k@),
    {
        match self.get_op(k) {
            Some(o) => o,
            None => None,
        }
    }

    /// Records a write: `Some(v)` puts `v` under `k`, `None` removes `k`.
    pub fn write(&mut self, k: Vec<u8>, op: Option<Vec<u8>>)
        ensures
            forall|k2: Seq<u8>|
                #![trigger final(self).op_of(k2)]
                final(self).op_of(k2) == if k2 == k@ {
                    Some(op_view(&op))
                } else {
                    old(self).op_of(k2)
                },
    {
        let ghost e = entry_view((k, op));
        let ghost s = self.log();
        match self.find(k.as_slice()) {
            Some(i) => {
                self.entries.set(i, (k, op));
                assert(self.log() =~= s.update(i as int, e));
                assert forall|k2: Seq<u8>|
                    #![trigger self.op_of(k2)]
                    self.op_of(k2) == if k2 == e.0 {
                        Some(e.1)
                    } else {
                        last_match(s, k2)
                    } by {
                    lemma_last_match_update(s, i as int, e, k2);
                }
            },
            None => {
                self.entries.push((k, op));
                assert(self.log() =~= s.push(e));
                assert forall|k2: Seq<u8>|
                    #![trigger self.op_of(k2)]
                    self.op_of(k2) == if k2 == e.0 {
                        Some(e.1)
                    } else {
                        last_match(s, k2)
                    } by {
                    lemma_last_match_push(s, e, k2);
                }
            },
        }
    }

    pub fn set(&mut self, k: Vec<u8>, v: Vec<u8>)
        ensures
            forall|k2: Seq<u8>|
                #![trigger final(self).value_of(k2)]
                final(self).value_of(k2) == if k2 == k@ {
                    Some(v@)
                } else {
                    old(self).value_of(k2)
                },
    {
        self.write(k, Some(v));
    }

    pub fn remove(&mut self, k: Vec<u8>)
        ensures
            forall|k2: Seq<u8>|
                #![trigger final(self).value_of(k2)]
                final(self).value_of(k2) == if k2 == k@ {
                    None
                } else {
                    old(self).value_of(k2)
                },
    {
        self.write(k, None);
    }
    /// Applies every write recorded in `writes` to this store, in the order they were recorded.
    pub fn apply(&mut self, writes: &KvLog)
        ensures
            forall|k: Seq<u8>|
                #![trigger final(self).value_of(k)]
                final(self).value_of(k) == match writes.op_of(k) {
                    Some(o) => o,
                    None => old(self).value_of(k),
                },
    {
        let ghost base = *self;
        let mut i: usize = 0;
        while i < writes.entries.len()
            invariant
                i <= writes.entries@.len(),
                writes.log().len() == writes.entries@.len(),
                forall|k: Seq<u8>|
                    #![trigger self.value_of(k)]
                    self.value_of(k) == match last_match(writes.log().take(i as int), k) {
                        Some(o) => o,
                        None => base.value_of(k),
                    },
            decreases writes.entries@.len() - i,
        {
            let ghost before = *self;
            let ghost pre = writes.log().take(i as int);
            assert(writes.log()[i as int] == entry_view(writes.entries@[i as int]));
            let k = slice_to_vec(writes.entries[i].0.as_slice());
            let o = copy_op(&writes.entries[i].1);
            self.write(k, o);
            proof {
                assert(writes.log().take(i + 1) =~= pre.push(writes.log()[i as int]));
                assert forall|k2: Seq<u8>|
                    #![trigger self.value_of(k2)]
                    self.value_of(k2) == match last_match(writes.log().take(i + 1), k2) {
                        Some(o) => o,
                        None => base.value_of(k2),
                    } by {
                    lemma_last_match_push(pre, writes.log()[i as int], k2);
                    assert(before.value_of(k2) == match last_match(pre, k2) {
                        Some(o) => o,
                        None => base.value_of(k2),
                    });
                }
            }
            i = i + 1;
        }
        assert(writes.log().take(i as int) =~= writes.log());
    }
}

} // verus!
