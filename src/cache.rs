use vstd::prelude::*;
use vstd::slice::slice_to_vec;

use crate::kv::{bytes_eq, op_view, KvLog, WriteOp};
use crate::order::{
    bytes_lt, lemma_lex_common_prefix, lemma_lex_total, lemma_lex_transitive, lex_lt,
};

verus! {

/// The eight big-endian bytes of `n`.
pub open spec fn be_u64(n: u64) -> Seq<u8> {
    seq![
        (n >> 56u64) as u8,
        (n >> 48u64) as u8,
        (n >> 40u64) as u8,
        (n >> 32u64) as u8,
        (n >> 24u64) as u8,
        (n >> 16u64) as u8,
        (n >> 8u64) as u8,
        n as u8,
    ]
}

pub fn u64_to_be(n: u64) -> (r: Vec<u8>)
    ensures
        r@ == be_u64(n),
{
    let r = vec![
        (n >> 56u64) as u8,
        (n >> 48u64) as u8,
        (n >> 40u64) as u8,
        (n >> 32u64) as u8,
        (n >> 24u64) as u8,
        (n >> 16u64) as u8,
        (n >> 8u64) as u8,
        n as u8,
    ];
    assert(r@ =~= be_u64(n));
    r
}

pub proof fn lemma_be_u64_injective(a: u64, b: u64)
    requires
        be_u64(a) == be_u64(b),
    ensures
        a == b,
{
    assert(be_u64(a)[0] == be_u64(b)[0]);
    assert(be_u64(a)[1] == be_u64(b)[1]);
    assert(be_u64(a)[2] == be_u64(b)[2]);
    assert(be_u64(a)[3] == be_u64(b)[3]);
    assert(be_u64(a)[4] == be_u64(b)[4]);
    assert(be_u64(a)[5] == be_u64(b)[5]);
    assert(be_u64(a)[6] == be_u64(b)[6]);
    assert(be_u64(a)[7] == be_u64(b)[7]);
    assert((a >> 56u64) as u8 == (b >> 56u64) as u8 && (a >> 48u64) as u8 == (b >> 48u64) as u8
        && (a >> 40u64) as u8 == (b >> 40u64) as u8 && (a >> 32u64) as u8 == (b >> 32u64) as u8
        && (a >> 24u64) as u8 == (b >> 24u64) as u8 && (a >> 16u64) as u8 == (b >> 16u64) as u8
        && (a >> 8u64) as u8 == (b >> 8u64) as u8 && a as u8 == b as u8 ==> a == b) by (bit_vector);
}

/// The tag in front of every key of the contract at `addr`: its length, then its bytes.
pub open spec fn namespace(addr: Seq<u8>) -> Seq<u8> {
    be_u64(addr.len() as u64) + addr
}

/// Where the contract at `addr` keeps its key `key` in the shared store.
pub open spec fn namespaced(addr: Seq<u8>, key: Seq<u8>) -> Seq<u8> {
    namespace(addr) + key
}

pub open spec fn in_namespace(addr: Seq<u8>, k: Seq<u8>) -> bool {
    k.len() >= namespace(addr).len() && k.subrange(0, namespace(addr).len() as int) == namespace(
        addr,
    )
}

pub fn namespaced_key(addr: &[u8], key: &[u8]) -> (r: Vec<u8>)
    ensures
        r@ == namespaced(addr@, key@),
{
    let mut r = u64_to_be(addr.len() as u64);
    let mut i: usize = 0;
    while i < addr.len()
        invariant
            i <= addr@.len(),
            r@ == be_u64(addr@.len() as u64) + addr@.subrange(0, i as int),
        decreases addr@.len() - i,
    {
        r.push(addr[i]);
        i = i + 1;
        assert(addr@.subrange(0, i as int) =~= addr@.subrange(0, i - 1).push(addr@[i - 1]));
    }
    assert(addr@.subrange(0, addr@.len() as int) =~= addr@);
    let mut j: usize = 0;
    while j < key.len()
        invariant
            j <= key@.len(),
            r@ == namespace(addr@) + key@.subrange(0, j as int),
        decreases key@.len() - j,
    {
        r.push(key[j]);
        j = j + 1;
        assert(key@.subrange(0, j as int) =~= key@.subrange(0, j - 1).push(key@[j - 1]));
        assert(r@ =~= namespace(addr@) + key@.subrange(0, j as int));
    }
    assert(key@.subrange(0, key@.len() as int) =~= key@);
    r
}

/// A key of one contract's namespace never lies in the namespace of another contract.
pub proof fn lemma_namespaces_disjoint(a: Seq<u8>, b: Seq<u8>, k: Seq<u8>)
    requires
        a != b,
        a.len() <= u64::MAX,
        b.len() <= u64::MAX,
    ensures
        !in_namespace(b, namespaced(a, k)),
{
    let s = namespaced(a, k);
    if in_namespace(b, s) {
        let pb = namespace(b);
        assert(s.subrange(0, 8) =~= be_u64(a.len() as u64));
        assert(pb.subrange(0, 8) =~= be_u64(b.len() as u64));
        assert(s.subrange(0, 8) =~= pb.subrange(0, 8));
        lemma_be_u64_injective(a.len() as u64, b.len() as u64);
        assert(a.len() == b.len());
        assert forall|i: int| 0 <= i < a.len() implies a[i] == b[i] by {
            assert(s[8 + i] == a[i]);
            assert(pb[8 + i] == b[i]);
            assert(s.subrange(0, pb.len() as int)[8 + i] == pb[8 + i]);
        }
        assert(a =~= b);
    }
}

/// Two keys of one contract are distinct in the shared store when they are distinct to it.
pub proof fn lemma_namespaced_injective(a: Seq<u8>, k1: Seq<u8>, k2: Seq<u8>)
    requires
        namespaced(a, k1) == namespaced(a, k2),
    ensures
        k1 == k2,
{
    let n = namespace(a).len() as int;
    assert(k1 =~= namespaced(a, k1).subrange(n, namespaced(a, k1).len() as int));
    assert(k2 =~= namespaced(a, k2).subrange(n, namespaced(a, k2).len() as int));
}

/// `k` lies in the half-open range from `start` up to `end` (no bound where `None`).
pub open spec fn in_range(k: Seq<u8>, start: Seq<u8>, end: Option<Seq<u8>>) -> bool {
    &&& !lex_lt(k, start)
    &&& match end {
        Some(e) => lex_lt(k, e),
        None => true,
    }
}

/// Keys strictly ascending.
pub open spec fn ascending(r: Seq<(Vec<u8>, Vec<u8>)>) -> bool {
    forall|i: int, j: int| 0 <= i < j < r.len() ==> lex_lt(#[trigger] r[i].0@, #[trigger] r[j].0@)
}

pub open spec fn listed(r: Seq<(Vec<u8>, Vec<u8>)>, k: Seq<u8>) -> bool {
    exists|i: int| 0 <= i < r.len() && (#[trigger] r[i]).0@ == k
}

pub open spec fn op_view_ref(o: Option<&[u8]>) -> Option<Seq<u8>> {
    match o {
        Some(b) => Some(b@),
        None => None,
    }
}

/// Whether `k` starts with `p`.
pub fn has_prefix(k: &[u8], p: &[u8]) -> (r: bool)
    ensures
        r == (p@.len() <= k@.len() && k@.subrange(0, p@.len() as int) == p@),
{
    if p.len() > k.len() {
        return false;
    }
    let mut i: usize = 0;
    while i < p.len()
        invariant
            p@.len() <= k@.len(),
            i <= p@.len(),
            forall|j: int| 0 <= j < i ==> k@[j] == p@[j],
        decreases p@.len() - i,
    {
        if k[i] != p[i] {
            assert(k@.subrange(0, p@.len() as int)[i as int] != p@[i as int]);
            return false;
        }
        i = i + 1;
    }
    assert(k@.subrange(0, p@.len() as int) =~= p@);
    true
}

/// The bytes of `k` from index `n` on.
pub fn suffix(k: &[u8], n: usize) -> (r: Vec<u8>)
    requires
        n <= k@.len(),
    ensures
        r@ == k@.subrange(n as int, k@.len() as int),
{
    let mut r: Vec<u8> = Vec::new();
    let mut i: usize = n;
    while i < k.len()
        invariant
            n <= i <= k@.len(),
            r@ == k@.subrange(n as int, i as int),
        decreases k@.len() - i,
    {
        r.push(k[i]);
        i = i + 1;
        assert(r@ =~= k@.subrange(n as int, i as int));
    }
    r
}

/// A write-buffered overlay over a store: writes are held until `flush`, reads see them first.
pub struct Cached {
    pending: KvLog,
}

impl Cached {
    /// The write held back for `k`, if any.
    pub closed spec fn pending_op(&self, k: Seq<u8>) -> Option<WriteOp> {
        self.pending.op_of(k)
    }

    /// What a read of `k` through this overlay over `base` sees.
    pub open spec fn value_over(&self, base: &KvLog, k: Seq<u8>) -> Option<Seq<u8>> {
        match self.pending_op(k) {
            Some(o) => o,
            None => base.value_of(k),
        }
    }

    pub fn new() -> (r: Cached)
        ensures
            forall|k: Seq<u8>| r.pending_op(k) == None::<WriteOp>,
    {
        Cached { pending: KvLog::new() }
    }

    pub fn get(&self, base: &KvLog, k: &[u8]) -> (r: Option<Vec<u8>>)
        ensures
            op_view(&r) == self.value_over(base, k@),
    {
        match self.pending.get_op(k) {
            Some(o) => o,
            None => base.get(k),
        }
    }

    pub fn set(&mut self, k: Vec<u8>, v: Vec<u8>)
        ensures
            forall|k2: Seq<u8>|
                #![trigger final(self).pending_op(k2)]
                final(self).pending_op(k2) == if k2 == k@ {
                    Some(Some(v@))
                } else {
                    old(self).pending_op(k2)
                },
    {
        self.pending.write(k, Some(v));
    }

    pub fn remove(&mut self, k: Vec<u8>)
        ensures
            forall|k2: Seq<u8>|
                #![trigger final(self).pending_op(k2)]
                final(self).pending_op(k2) == if k2 == k@ {
                    Some(None::<Seq<u8>>)
                } else {
                    old(self).pending_op(k2)
                },
    {
        self.pending.write(k, None);
    }

    /// Each pair of `r` is a key in range with the value read through this overlay.
    pub open spec fn range_entries(
        &self,
        base: &KvLog,
        start: Seq<u8>,
        end: Option<Seq<u8>>,
        r: Seq<(Vec<u8>, Vec<u8>)>,
    ) -> bool {
        forall|i: int|
            0 <= i < r.len() ==> in_range((#[trigger] r[i]).0@, start, end) && self.value_over(
                base,
                r[i].0@,
            ) == Some(r[i].1@)
    }

    /// Adds `k` with its value to the ascending `r` where `k` is in range, holds a value and is
    /// not listed yet.
    fn add_in_order(
        &self,
        r: &mut Vec<(Vec<u8>, Vec<u8>)>,
        base: &KvLog,
        k: &[u8],
        start: &[u8],
        end: Option<&[u8]>,
    )
        requires
            ascending(old(r)@),
            self.range_entries(base, start@, op_view_ref(end), old(r)@),
        ensures
            ascending(final(r)@),
            self.range_entries(base, start@, op_view_ref(end), final(r)@),
            forall|k2: Seq<u8>| listed(old(r)@, k2) ==> listed(final(r)@, k2),
            in_range(k@, start@, op_view_ref(end)) && self.value_over(base, k@) is Some ==> listed(
                final(r)@,
                k@,
            ),
    {
        if bytes_lt(k, start) {
            return;
        }
        match end {
            Some(e) => {
                if !bytes_lt(k, e) {
                    return;
                }
            },
            None => {},
        }
        let v = match self.get(base, k) {
            Some(v) => v,
            None => {
                return;
            },
        };
        let mut j: usize = 0;
        while j < r.len() && bytes_lt(r[j].0.as_slice(), k)
            invariant
                j <= r@.len(),
                forall|a: int| 0 <= a < j ==> lex_lt((#[trigger] r@[a]).0@, k@),
            decreases r@.len() - j,
        {
            j = j + 1;
        }
        if j < r.len() && bytes_eq(r[j].0.as_slice(), k) {
            assert(r@[j as int].0@ == k@);
            return;
        }
        let ghost old_r = r@;
        proof {
            if j < old_r.len() {
                lemma_lex_total(k@, old_r[j as int].0@);
                assert forall|b: int| j <= b < old_r.len() implies lex_lt(k@, (#[trigger] old_r[b]).0@) by {
                    if b > j {
                        lemma_lex_transitive(k@, old_r[j as int].0@, old_r[b].0@);
                    }
                }
            }
        }
        let kv = slice_to_vec(k);
        let entry = (kv, v);
        r.insert(j, entry);
        proof {
            assert(r@ == old_r.insert(j as int, entry));
            assert forall|a: int, b: int| 0 <= a < b < r@.len() implies lex_lt(
                #[trigger] r@[a].0@,
                #[trigger] r@[b].0@,
            ) by {
                if b < j {
                    assert(r@[a] == old_r[a] && r@[b] == old_r[b]);
                } else if b == j {
                    assert(r@[a] == old_r[a]);
                } else if a == j {
                    assert(r@[b] == old_r[b - 1]);
                } else if a < j {
                    assert(r@[a] == old_r[a] && r@[b] == old_r[b - 1]);
                    lemma_lex_transitive(old_r[a].0@, k@, old_r[b - 1].0@);
                } else {
                    assert(r@[a] == old_r[a - 1] && r@[b] == old_r[b - 1]);
                }
            }
            assert forall|i: int| 0 <= i < r@.len() implies in_range(
                (#[trigger] r@[i]).0@,
                start@,
                op_view_ref(end),
            ) && self.value_over(base, r@[i].0@) == Some(r@[i].1@) by {
                if i < j {
                    assert(r@[i] == old_r[i]);
                } else if i > j {
                    assert(r@[i] == old_r[i - 1]);
                }
            }
            assert forall|k2: Seq<u8>| listed(old_r, k2) implies listed(r@, k2) by {
                let a = choose|a: int| 0 <= a < old_r.len() && (#[trigger] old_r[a]).0@ == k2;
                if a < j {
                    assert(r@[a] == old_r[a]);
                } else {
                    assert(r@[a + 1] == old_r[a]);
                }
            }
            assert(r@[j as int].0@ == k@);
        }
    }

    /// The keys in range that hold a value through this overlay over `base`, in ascending
    /// order, each with its value.
    pub fn range(&self, base: &KvLog, start: &[u8], end: Option<&[u8]>) -> (r: Vec<
        (Vec<u8>, Vec<u8>),
    >)
        ensures
            ascending(r@),
            self.range_entries(base, start@, op_view_ref(end), r@),
            forall|k: Seq<u8>|
                in_range(k, start@, op_view_ref(end)) && self.value_over(base, k) is Some ==> listed(
                    r@,
                    k,
                ),
    {
        let mut r: Vec<(Vec<u8>, Vec<u8>)> = Vec::new();
        let ghost e = op_view_ref(end);
        let mut i: usize = 0;
        while i < base.len()
            invariant
                i <= base.log().len(),
                e == op_view_ref(end),
                ascending(r@),
                self.range_entries(base, start@, e, r@),
                forall|a: int|
                    0 <= a < i ==> (in_range((#[trigger] base.log()[a]).0, start@, e)
                        && self.value_over(base, base.log()[a].0) is Some ==> listed(
                        r@,
                        base.log()[a].0,
                    )),
            decreases base.log().len() - i,
        {
            let ghost before = r@;
            self.add_in_order(&mut r, base, base.key_at(i).as_slice(), start, end);
            proof {
                assert forall|a: int|
                    0 <= a < i + 1 implies (in_range((#[trigger] base.log()[a]).0, start@, e)
                    && self.value_over(base, base.log()[a].0) is Some ==> listed(
                    r@,
                    base.log()[a].0,
                )) by {
                    if a < i && in_range(base.log()[a].0, start@, e) && self.value_over(
                        base,
                        base.log()[a].0,
                    ) is Some {
                        assert(listed(before, base.log()[a].0));
                    }
                }
            }
            i = i + 1;
        }
        let mut j: usize = 0;
        while j < self.pending.len()
            invariant
                j <= self.pending.log().len(),
                e == op_view_ref(end),
                ascending(r@),
                self.range_entries(base, start@, e, r@),
                forall|a: int|
                    0 <= a < base.log().len() ==> (in_range(
                        (#[trigger] base.log()[a]).0,
                        start@,
                        e,
                    ) && self.value_over(base, base.log()[a].0) is Some ==> listed(
                        r@,
                        base.log()[a].0,
                    )),
                forall|a: int|
                    0 <= a < j ==> (in_range((#[trigger] self.pending.log()[a]).0, start@, e)
                        && self.value_over(base, self.pending.log()[a].0) is Some ==> listed(
                        r@,
                        self.pending.log()[a].0,
                    )),
            decreases self.pending.log().len() - j,
        {
            let ghost before = r@;
            self.add_in_order(&mut r, base, self.pending.key_at(j).as_slice(), start, end);
            proof {
                assert forall|a: int|
                    0 <= a < base.log().len() implies (in_range(
                    (#[trigger] base.log()[a]).0,
                    start@,
                    e,
                ) && self.value_over(base, base.log()[a].0) is Some ==> listed(
                    r@,
                    base.log()[a].0,
                )) by {
                    if in_range(base.log()[a].0, start@, e) && self.value_over(
                        base,
                        base.log()[a].0,
                    ) is Some {
                        assert(listed(before, base.log()[a].0));
                    }
                }
                assert forall|a: int|
                    0 <= a < j + 1 implies (in_range(
                    (#[trigger] self.pending.log()[a]).0,
                    start@,
                    e,
                ) && self.value_over(base, self.pending.log()[a].0) is Some ==> listed(
                    r@,
                    self.pending.log()[a].0,
                )) by {
                    if a < j && in_range(self.pending.log()[a].0, start@, e) && self.value_over(
                        base,
                        self.pending.log()[a].0,
                    ) is Some {
                        assert(listed(before, self.pending.log()[a].0));
                    }
                }
            }
            j = j + 1;
        }
        proof {
            assert forall|k: Seq<u8>|
                in_range(k, start@, e) && self.value_over(base, k) is Some implies listed(
                r@,
                k,
            ) by {
                if self.pending.op_of(k) is Some {
                    self.pending.lemma_written(k);
                    let a = choose|a: int|
                        0 <= a < self.pending.log().len() && (#[trigger] self.pending.log()[a]).0
                            == k;
                } else {
                    base.lemma_written(k);
                    let a = choose|a: int|
                        0 <= a < base.log().len() && (#[trigger] base.log()[a]).0 == k;
                }
            }
        }
        r
    }

    /// Drops every held-back write.
    pub fn discard(&mut self)
        ensures
            forall|k: Seq<u8>| final(self).pending_op(k) == None::<WriteOp>,
    {
        self.pending = KvLog::new();
    }

    /// Applies every held-back write to `base`.
    pub fn flush(self, base: &mut KvLog)
        ensures
            forall|k: Seq<u8>|
                #![trigger final(base).value_of(k)]
                final(base).value_of(k) == self.value_over(old(base), k),
    {
        base.apply(&self.pending);
    }
}

/// One contract's view of an overlay: every key it reads or writes is put in its namespace.
pub struct Substore {
    addr: Vec<u8>,
    cache: Cached,
}

impl Substore {
    pub closed spec fn addr(&self) -> Seq<u8> {
        self.addr@
    }

    pub closed spec fn cache(&self) -> Cached {
        self.cache
    }

    /// Every held-back write lies in the contract's namespace.
    pub open spec fn wf(&self) -> bool {
        forall|k: Seq<u8>|
            #![trigger self.cache().pending_op(k)]
            self.cache().pending_op(k) is Some ==> in_namespace(self.addr(), k)
    }

    /// What the contract reads under its key `key`, over `base`.
    pub open spec fn value(&self, base: &KvLog, key: Seq<u8>) -> Option<Seq<u8>> {
        self.cache().value_over(base, namespaced(self.addr(), key))
    }

    pub fn new(addr: &[u8]) -> (r: Substore)
        ensures
            r.wf(),
            r.addr() == addr@,
            forall|k: Seq<u8>| r.cache().pending_op(k) == None::<WriteOp>,
    {
        Substore { addr: slice_to_vec(addr), cache: Cached::new() }
    }

    pub fn read(&self, base: &KvLog, key: &[u8]) -> (r: Option<Vec<u8>>)
        ensures
            op_view(&r) == self.value(base, key@),
    {
        let k = namespaced_key(self.addr.as_slice(), key);
        self.cache.get(base, k.as_slice())
    }

    pub fn write(&mut self, key: &[u8], value: Vec<u8>)
        requires
            old(self).wf(),
        ensures
            final(self).wf(),
            final(self).addr() == old(self).addr(),
            forall|b: &KvLog, k2: Seq<u8>|
                #![trigger final(self).value(b, k2)]
                final(self).value(b, k2) == if k2 == key@ {
                    Some(value@)
                } else {
                    old(self).value(b, k2)
                },
    {
        let k = namespaced_key(self.addr.as_slice(), key);
        proof {
            assert(namespace(self.addr@) =~= k@.subrange(0, namespace(self.addr@).len() as int));
        }
        self.cache.set(k, value);
        proof {
            assert forall|b: &KvLog, k2: Seq<u8>|
                #![trigger self.value(b, k2)]
                self.value(b, k2) == if k2 == key@ {
                    Some(value@)
                } else {
                    old(self).value(b, k2)
                } by {
                if namespaced(self.addr@, k2) == namespaced(self.addr@, key@) {
                    lemma_namespaced_injective(self.addr@, k2, key@);
                }
            }
        }
    }

    pub fn remove(&mut self, key: &[u8])
        requires
            old(self).wf(),
        ensures
            final(self).wf(),
            final(self).addr() == old(self).addr(),
            forall|b: &KvLog, k2: Seq<u8>|
                #![trigger final(self).value(b, k2)]
                final(self).value(b, k2) == if k2 == key@ {
                    None
                } else {
                    old(self).value(b, k2)
                },
    {
        let k = namespaced_key(self.addr.as_slice(), key);
        proof {
            assert(namespace(self.addr@) =~= k@.subrange(0, namespace(self.addr@).len() as int));
        }
        self.cache.remove(k);
        proof {
            assert forall|b: &KvLog, k2: Seq<u8>|
                #![trigger self.value(b, k2)]
                self.value(b, k2) == if k2 == key@ {
                    None
                } else {
                    old(self).value(b, k2)
                } by {
                if namespaced(self.addr@, k2) == namespaced(self.addr@, key@) {
                    lemma_namespaced_injective(self.addr@, k2, key@);
                }
            }
        }
    }

    /// The contract's keys in range that hold a value over `base`, in ascending order, each with
    /// its value.
    pub fn scan(&self, base: &KvLog, start: &[u8], end: Option<&[u8]>) -> (r: Vec<(Vec<u8>, Vec<u8>)>)
        ensures
            ascending(r@),
            forall|i: int|
                0 <= i < r@.len() ==> in_range((#[trigger] r@[i]).0@, start@, op_view_ref(end))
                    && self.value(base, r@[i].0@) == Some(r@[i].1@),
            forall|k: Seq<u8>|
                in_range(k, start@, op_view_ref(end)) && self.value(base, k) is Some ==> listed(
                    r@,
                    k,
                ),
    {
        let ns = namespaced_key(self.addr.as_slice(), &[]);
        let ghost nsv = namespace(self.addr@);
        assert(ns@ =~= nsv);
        let lo = namespaced_key(self.addr.as_slice(), start);
        let hi = match end {
            Some(e) => Some(namespaced_key(self.addr.as_slice(), e)),
            None => None,
        };
        let hi_slice: Option<&[u8]> = match &hi {
            Some(h) => Some(h.as_slice()),
            None => None,
        };
        let ghost ev = op_view_ref(end);
        let ghost hv = op_view_ref(hi_slice);
        assert(hv == match ev {
            Some(e) => Some(nsv + e),
            None => None::<Seq<u8>>,
        });
        let full = self.cache.range(base, lo.as_slice(), hi_slice);
        proof {
            assert forall|k: Seq<u8>| #[trigger] in_range(nsv + k, lo@, hv) == in_range(k, start@, ev) by {
                lemma_lex_common_prefix(nsv, k, start@);
                if let Some(e) = ev {
                    lemma_lex_common_prefix(nsv, k, e);
                }
            }
        }
        let mut r: Vec<(Vec<u8>, Vec<u8>)> = Vec::new();
        let ghost mut last: int = -1;
        let mut i: usize = 0;
        while i < full.len()
            invariant
                i <= full@.len(),
                nsv == namespace(self.addr@),
                ns@ == nsv,
                ascending(full@),
                self.cache.range_entries(base, lo@, hv, full@),
                forall|k: Seq<u8>|
                    in_range(k, lo@, hv) && self.cache.value_over(base, k) is Some ==> listed(
                        full@,
                        k,
                    ),
                forall|k: Seq<u8>| #[trigger] in_range(nsv + k, lo@, hv) == in_range(k, start@, ev),
                ascending(r@),
                -1 <= last < i,
                r@.len() > 0 <==> last >= 0,
                r@.len() > 0 ==> nsv + r@.last().0@ == full@[last].0@,
                forall|j: int|
                    0 <= j < r@.len() ==> in_range((#[trigger] r@[j]).0@, start@, ev) && self.value(
                        base,
                        r@[j].0@,
                    ) == Some(r@[j].1@),
                forall|a: int|
                    0 <= a < i && in_namespace(self.addr@, (#[trigger] full@[a]).0@) ==> listed(
                        r@,
                        full@[a].0@.subrange(nsv.len() as int, full@[a].0@.len() as int),
                    ),
            decreases full@.len() - i,
        {
            if has_prefix(full[i].0.as_slice(), ns.as_slice()) {
                let user = suffix(full[i].0.as_slice(), ns.len());
                let value = slice_to_vec(full[i].1.as_slice());
                let ghost fk = full@[i as int].0@;
                let ghost before = r@;
                proof {
                    assert(fk =~= nsv + user@);
                    assert(self.value(base, user@) == self.cache.value_over(base, fk));
                    if r@.len() > 0 {
                        assert(lex_lt(full@[last].0@, fk));
                        lemma_lex_common_prefix(nsv, r@.last().0@, user@);
                    }
                }
                r.push((user, value));
                proof {
                    assert forall|a: int, b: int| 0 <= a < b < r@.len() implies lex_lt(
                        #[trigger] r@[a].0@,
                        #[trigger] r@[b].0@,
                    ) by {
                        if b == r@.len() - 1 && a < b - 1 {
                            assert(before[a] == r@[a]);
                            lemma_lex_transitive(r@[a].0@, before.last().0@, r@[b].0@);
                        } else if b < r@.len() - 1 {
                            assert(before[a] == r@[a] && before[b] == r@[b]);
                        }
                    }
                    assert forall|a: int|
                        0 <= a < i + 1 && in_namespace(self.addr@, (#[trigger] full@[a]).0@) implies listed(
                        r@,
                        full@[a].0@.subrange(nsv.len() as int, full@[a].0@.len() as int),
                    ) by {
                        if a < i {
                            let b = choose|b: int|
                                0 <= b < before.len() && (#[trigger] before[b]).0@
                                    == full@[a].0@.subrange(nsv.len() as int, full@[a].0@.len() as int);
                            assert(r@[b] == before[b]);
                        } else {
                            assert(r@[r@.len() - 1].0@ == user@);
                        }
                    }
                    last = i as int;
                }
            } else {
                proof {
                    assert(!in_namespace(self.addr@, full@[i as int].0@));
                }
            }
            i = i + 1;
        }
        proof {
            assert forall|k: Seq<u8>|
                in_range(k, start@, ev) && self.value(base, k) is Some implies listed(r@, k) by {
                let fk = nsv + k;
                assert(in_range(fk, lo@, hv));
                assert(fk == namespaced(self.addr@, k));
                assert(self.cache.value_over(base, fk) is Some);
                assert(listed(full@, fk));
                let a = choose|a: int| 0 <= a < full@.len() && (#[trigger] full@[a]).0@ == fk;
                assert(fk.subrange(0, nsv.len() as int) =~= nsv);
                assert(fk.subrange(nsv.len() as int, fk.len() as int) =~= k);
            }
        }
        r
    }

    /// Applies the contract's writes to `base`: its namespace takes what the contract saw last,
    /// and no key outside it changes.
    pub fn flush(self, base: &mut KvLog)
        requires
            self.wf(),
        ensures
            forall|key: Seq<u8>|
                #![trigger final(base).value_of(namespaced(self.addr(), key))]
                final(base).value_of(namespaced(self.addr(), key)) == self.value(old(base), key),
            forall|k: Seq<u8>|
                !in_namespace(self.addr(), k) ==> #[trigger] final(base).value_of(k) == old(
                    base,
                ).value_of(k),
            forall|k: Seq<u8>|
                #![trigger final(base).value_of(k)]
                final(base).value_of(k) == self.cache().value_over(old(base), k),
    {
        self.cache.flush(base);
    }
}

} // verus!
