use vstd::prelude::*;

use crate::lex::{compare_bytes, is_prefix, lemma_lex_irreflexive, lemma_lex_transitive, lex_lt, starts_with};
use crate::util::Bytes;

verus! {

/// A key-value pair of the index.
pub struct Row {
    pub key: Bytes,
    pub value: Bytes,
}

impl View for Row {
    type V = (Seq<u8>, Seq<u8>);

    open spec fn view(&self) -> (Seq<u8>, Seq<u8>) {
        (self.key@, self.value@)
    }
}

impl Row {
    pub fn into_pair(self) -> (r: (Bytes, Bytes))
        ensures
            r.0@ == self.key@,
            r.1@ == self.value@,
    {
        (self.key, self.value)
    }
}

/// The views of a sequence of rows.
pub open spec fn rows_view(rows: Seq<Row>) -> Seq<(Seq<u8>, Seq<u8>)> {
    rows.map_values(|r: Row| r@)
}

/// `rows` is exactly the set of entries of `lookup` whose key starts with `prefix`,
/// in strictly increasing key order.
pub open spec fn is_scan_of(
    lookup: spec_fn(Seq<u8>) -> Option<Seq<u8>>,
    prefix: Seq<u8>,
    rows: Seq<(Seq<u8>, Seq<u8>)>,
) -> bool {
    &&& forall|i: int|
        0 <= i < rows.len() ==> is_prefix(prefix, #[trigger] rows[i].0) && lookup(rows[i].0)
            == Some(rows[i].1)
    &&& forall|k: Seq<u8>|
        is_prefix(prefix, k) && (#[trigger] lookup(k)).is_some() ==> exists|i: int|
            0 <= i < rows.len() && (#[trigger] rows[i]).0 == k
    &&& forall|i: int, j: int| 0 <= i < j < rows.len() ==> lex_lt(rows[i].0, rows[j].0)
}

/// Read access to an ordered byte-keyed store.
pub trait ReadStore {
    /// The value visible under `key`, if any.
    spec fn lookup(&self, key: Seq<u8>) -> Option<Seq<u8>>;

    spec fn store_wf(&self) -> bool;

    fn get(&self, key: &[u8]) -> (r: Option<Bytes>)
        requires
            self.store_wf(),
        ensures
            r matches Some(v) ==> self.lookup(key@) == Some(v@),
            r is None ==> self.lookup(key@) is None,
    ;

    fn scan(&self, prefix: &[u8]) -> (r: Vec<Row>)
        requires
            self.store_wf(),
        ensures
            is_scan_of(|k: Seq<u8>| self.lookup(k), prefix@, rows_view(r@)),
    ;
}

/// An ordered map from keys to non-empty stacks of values, the latest on top.
pub struct StackMap {
    keys: Vec<Bytes>,
    stacks: Vec<Vec<Bytes>>,
}

pub open spec fn stack_view(s: Seq<Bytes>) -> Seq<Seq<u8>> {
    s.map_values(|v: Bytes| v@)
}

impl StackMap {
    pub closed spec fn key_at(&self, i: int) -> Seq<u8> {
        self.keys@[i]@
    }

    pub closed spec fn stack_at(&self, i: int) -> Seq<Seq<u8>> {
        stack_view(self.stacks@[i]@)
    }

    pub closed spec fn len(&self) -> int {
        self.keys@.len() as int
    }

    pub open spec fn has(&self, k: Seq<u8>) -> bool {
        exists|i: int| 0 <= i < self.len() && self.key_at(i) == k
    }

    /// The stack of values under `k`, empty where `k` is absent.
    pub open spec fn stack_of(&self, k: Seq<u8>) -> Seq<Seq<u8>> {
        if self.has(k) {
            self.stack_at(choose|i: int| 0 <= i < self.len() && self.key_at(i) == k)
        } else {
            Seq::empty()
        }
    }

    /// The value on top of the stack under `k`.
    pub open spec fn top(&self, k: Seq<u8>) -> Option<Seq<u8>> {
        if self.stack_of(k).len() > 0 {
            Some(self.stack_of(k).last())
        } else {
            None
        }
    }

    pub closed spec fn wf(&self) -> bool {
        &&& self.keys@.len() == self.stacks@.len()
        &&& forall|i: int, j: int| 0 <= i < j < self.len() ==> lex_lt(self.key_at(i), self.key_at(j))
        &&& forall|i: int| 0 <= i < self.len() ==> (#[trigger] self.stacks@[i]@).len() > 0
    }

    proof fn lemma_stack_of_at(&self, i: int)
        requires
            self.wf(),
            0 <= i < self.len(),
        ensures
            self.has(self.key_at(i)),
            self.stack_of(self.key_at(i)) == self.stack_at(i),
    {
        let k = self.key_at(i);
        assert(self.has(k));
        let j = choose|j: int| 0 <= j < self.len() && self.key_at(j) == k;
        if i < j {
            lemma_lex_irreflexive(k);
        } else if j < i {
            lemma_lex_irreflexive(k);
        }
    }

    pub fn new() -> (r: StackMap)
        ensures
            r.wf(),
            forall|k: Seq<u8>| (#[trigger] r.stack_of(k)).len() == 0,
    {
        StackMap { keys: Vec::new(), stacks: Vec::new() }
    }

    /// Position of `key`: whether it is present, and where it is or would go.
    fn find(&self, key: &[u8]) -> (r: (bool, usize))
        requires
            self.wf(),
        ensures
            r.1 <= self.len(),
            r.0 ==> r.1 < self.len() && self.key_at(r.1 as int) == key@,
            !r.0 ==> !self.has(key@),
            forall|j: int| 0 <= j < r.1 ==> lex_lt(self.key_at(j), key@),
            !r.0 && r.1 < self.len() ==> lex_lt(key@, self.key_at(r.1 as int)),
    {
        let mut i: usize = 0;
        while i < self.keys.len()
            invariant
                self.wf(),
                0 <= i <= self.len(),
                forall|j: int| 0 <= j < i ==> lex_lt(self.key_at(j), key@),
            decreases self.keys.len() - i,
        {
            let c = compare_bytes(self.keys[i].as_slice(), key);
            if c == 0 {
                return (true, i);
            } else if c > 0 {
                assert forall|j: int| 0 <= j < self.len() implies self.key_at(j) != key@ by {
                    if j < i {
                        crate::lex::lemma_lex_asymmetric(self.key_at(j), key@);
                    } else if j == i {
                        lemma_lex_irreflexive(key@);
                    } else {
                        lemma_lex_transitive(key@, self.key_at(i as int), self.key_at(j));
                        lemma_lex_irreflexive(key@);
                    }
                }
                return (false, i);
            }
            i = i + 1;
        }
        assert forall|j: int| 0 <= j < self.len() implies self.key_at(j) != key@ by {
            crate::lex::lemma_lex_asymmetric(self.key_at(j), key@);
        }
        (false, i)
    }

    /// The value on top of the stack under `key`.
    pub fn get_top(&self, key: &[u8]) -> (r: Option<Bytes>)
        requires
            self.wf(),
        ensures
            r matches Some(v) ==> self.top(key@) == Some(v@),
            r is None ==> self.top(key@) is None,
    {
        let (found, i) = self.find(key);
        if found {
            proof { self.lemma_stack_of_at(i as int); }
            let s = &self.stacks[i];
            let n = s.len();
            let mut v: Bytes = Vec::new();
            let top = &s[n - 1];
            let mut j: usize = 0;
            while j < top.len()
                invariant
                    0 <= j <= top@.len(),
                    v@ == top@.subrange(0, j as int),
                decreases top.len() - j,
            {
                v.push(top[j]);
                j = j + 1;
                assert(v@ =~= top@.subrange(0, j as int));
            }
            assert(v@ =~= top@);
            Some(v)
        } else {
            None
        }
    }

    /// Pushes `value` on the stack under `key`.
    pub fn push(&mut self, key: Bytes, value: Bytes)
        requires
            old(self).wf(),
        ensures
            final(self).wf(),
            forall|k: Seq<u8>|
                #[trigger] final(self).stack_of(k) == if k == key@ {
                    old(self).stack_of(k).push(value@)
                } else {
                    old(self).stack_of(k)
                },
    {
        let ghost pre = *self;
        let (found, i) = self.find(key.as_slice());
        if found {
            let mut s = self.stacks.remove(i);
            s.push(value);
            self.stacks.insert(i, s);
            assert(self.keys@ == pre.keys@);
            assert forall|j: int| 0 <= j < self.len() implies (#[trigger] self.stacks@[j]@).len() > 0 by {
                if j != i {
                    assert(self.stacks@[j] == pre.stacks@[j]);
                }
            }
            assert forall|j: int| 0 <= j < self.len() implies #[trigger] self.key_at(j) == pre.key_at(j) by {}
            assert(self.wf());
            assert forall|k: Seq<u8>|
                #[trigger] self.stack_of(k) == if k == key@ {
                    pre.stack_of(k).push(value@)
                } else {
                    pre.stack_of(k)
                } by {
                if k == key@ {
                    pre.lemma_stack_of_at(i as int);
                    self.lemma_stack_of_at(i as int);
                    assert(self.stack_at(i as int) =~= pre.stack_at(i as int).push(value@));
                } else if pre.has(k) {
                    let j = choose|j: int| 0 <= j < pre.len() && pre.key_at(j) == k;
                    pre.lemma_stack_of_at(j);
                    self.lemma_stack_of_at(j);
                    assert(self.stack_at(j) == pre.stack_at(j));
                } else if self.has(k) {
                    let j = choose|j: int| 0 <= j < self.len() && self.key_at(j) == k;
                    assert(pre.key_at(j) == k);
                }
            }
        } else {
            let ghost kv = key@;
            self.keys.insert(i, key);
            self.stacks.insert(i, vec![value]);
            proof { self.lemma_after_insert(pre, i as int, kv); }
            assert forall|k: Seq<u8>|
                #[trigger] self.stack_of(k) == if k == kv {
                    pre.stack_of(k).push(value@)
                } else {
                    pre.stack_of(k)
                } by {
                if k == kv {
                    self.lemma_stack_of_at(i as int);
                    assert(self.stack_at(i as int) =~= seq![value@]);
                    assert(pre.stack_of(k) =~= Seq::<Seq<u8>>::empty());
                } else if pre.has(k) {
                    let j = choose|j: int| 0 <= j < pre.len() && pre.key_at(j) == k;
                    pre.lemma_stack_of_at(j);
                    if j < i {
                        self.lemma_stack_of_at(j);
                    } else {
                        self.lemma_stack_of_at(j + 1);
                    }
                } else {
                    if self.has(k) {
                        let j = choose|j: int| 0 <= j < self.len() && self.key_at(j) == k;
                        if j < i {
                            assert(pre.key_at(j) == k);
                        } else if j > i {
                            assert(pre.key_at(j - 1) == k);
                        }
                    }
                }
            }
        }
    }

    /// Facts about the map after a new key was inserted at position `i`.
    proof fn lemma_after_insert(&self, pre: StackMap, i: int, kv: Seq<u8>)
        requires
            pre.wf(),
            0 <= i <= pre.len(),
            self.keys@ == pre.keys@.insert(i, self.keys@[i]),
            self.stacks@ == pre.stacks@.insert(i, self.stacks@[i]),
            self.keys@[i]@ == kv,
            self.stacks@[i]@.len() > 0,
            forall|j: int| 0 <= j < i ==> lex_lt(pre.key_at(j), kv),
            i < pre.len() ==> lex_lt(kv, pre.key_at(i)),
        ensures
            self.wf(),
            self.len() == pre.len() + 1,
            self.key_at(i) == kv,
            forall|j: int| 0 <= j < i ==> self.key_at(j) == pre.key_at(j) && self.stack_at(j) == pre.stack_at(j),
            forall|j: int| i < j < self.len() ==> self.key_at(j) == pre.key_at(j - 1) && self.stack_at(j) == pre.stack_at(j - 1),
    {
        assert forall|j: int| 0 <= j < i implies self.key_at(j) == pre.key_at(j) && self.stack_at(j) == pre.stack_at(j) by {
            assert(self.keys@[j] == pre.keys@[j]);
            assert(self.stacks@[j] == pre.stacks@[j]);
        }
        assert forall|j: int| i < j < self.len() implies self.key_at(j) == pre.key_at(j - 1) && self.stack_at(j) == pre.stack_at(j - 1) by {
            assert(self.keys@[j] == pre.keys@[j - 1]);
            assert(self.stacks@[j] == pre.stacks@[j - 1]);
        }
        assert forall|a: int, b: int| 0 <= a < b < self.len() implies lex_lt(self.key_at(a), self.key_at(b)) by {
            if b < i {
            } else if b == i {
            } else if a < i {
                lemma_lex_transitive(self.key_at(a), kv, pre.key_at(i));
                if b - 1 > i {
                    lemma_lex_transitive(self.key_at(a), pre.key_at(i), pre.key_at(b - 1));
                }
            } else if a == i {
                if b - 1 > i {
                    lemma_lex_transitive(kv, pre.key_at(i), pre.key_at(b - 1));
                }
            } else {
            }
        }
        assert forall|j: int| 0 <= j < self.len() implies (#[trigger] self.stacks@[j]@).len() > 0 by {
            if j < i {
                assert(self.stacks@[j] == pre.stacks@[j]);
            } else if j > i {
                assert(self.stacks@[j] == pre.stacks@[j - 1]);
            }
        }
    }

    /// Facts about the map after the key at position `i` was removed.
    proof fn lemma_after_remove(&self, pre: StackMap, i: int)
        requires
            pre.wf(),
            0 <= i < pre.len(),
            self.keys@ == pre.keys@.remove(i),
            self.stacks@ == pre.stacks@.remove(i),
        ensures
            self.wf(),
            !self.has(pre.key_at(i)),
            forall|k: Seq<u8>|
                #[trigger] self.stack_of(k) == if k == pre.key_at(i) {
                    Seq::<Seq<u8>>::empty()
                } else {
                    pre.stack_of(k)
                },
    {
        assert forall|j: int| 0 <= j < i implies self.key_at(j) == pre.key_at(j) && self.stack_at(j) == pre.stack_at(j) by {
            assert(self.keys@[j] == pre.keys@[j]);
            assert(self.stacks@[j] == pre.stacks@[j]);
        }
        assert forall|j: int| i <= j < self.len() implies self.key_at(j) == pre.key_at(j + 1) && self.stack_at(j) == pre.stack_at(j + 1) by {
            assert(self.keys@[j] == pre.keys@[j + 1]);
            assert(self.stacks@[j] == pre.stacks@[j + 1]);
        }
        assert forall|a: int, b: int| 0 <= a < b < self.len() implies lex_lt(self.key_at(a), self.key_at(b)) by {
            if b < i {
            } else if a < i {
                assert(self.key_at(b) == pre.key_at(b + 1));
            } else {
                assert(self.key_at(a) == pre.key_at(a + 1));
                assert(self.key_at(b) == pre.key_at(b + 1));
            }
        }
        assert forall|j: int| 0 <= j < self.len() implies (#[trigger] self.stacks@[j]@).len() > 0 by {
            if j < i {
                assert(self.stacks@[j] == pre.stacks@[j]);
            } else {
                assert(self.stacks@[j] == pre.stacks@[j + 1]);
            }
        }
        let ki = pre.key_at(i);
        if self.has(ki) {
            let j = choose|j: int| 0 <= j < self.len() && self.key_at(j) == ki;
            lemma_lex_irreflexive(ki);
            if j < i {
                assert(lex_lt(pre.key_at(j), pre.key_at(i)));
            } else {
                assert(lex_lt(pre.key_at(i), pre.key_at(j + 1)));
            }
        }
        assert forall|k: Seq<u8>|
            #[trigger] self.stack_of(k) == if k == ki {
                Seq::<Seq<u8>>::empty()
            } else {
                pre.stack_of(k)
            } by {
            if self.has(k) {
                let j = choose|j: int| 0 <= j < self.len() && self.key_at(j) == k;
                self.lemma_stack_of_at(j);
                if j < i {
                    pre.lemma_stack_of_at(j);
                    lemma_lex_irreflexive(ki);
                } else {
                    assert(self.key_at(j) == pre.key_at(j + 1));
                    pre.lemma_stack_of_at(j + 1);
                    lemma_lex_irreflexive(ki);
                }
            } else if pre.has(k) {
                let j = choose|j: int| 0 <= j < pre.len() && pre.key_at(j) == k;
                if j < i {
                    assert(self.key_at(j) == k);
                } else if j > i {
                    assert(self.key_at(j - 1) == k);
                }
            }
        }
    }

    /// Pops the value on top of the stack under `key`; drops the key when its stack
    /// becomes empty.
    pub fn pop(&mut self, key: &[u8]) -> (r: Option<Bytes>)
        requires
            old(self).wf(),
        ensures
            final(self).wf(),
            r matches Some(v) ==> old(self).top(key@) == Some(v@),
            r is None ==> old(self).top(key@) is None,
            forall|k: Seq<u8>|
                #[trigger] final(self).stack_of(k) == if k == key@ && old(self).stack_of(k).len() > 0 {
                    old(self).stack_of(k).drop_last()
                } else {
                    old(self).stack_of(k)
                },
    {
        let ghost pre = *self;
        let (found, i) = self.find(key);
        if !found {
            assert forall|k: Seq<u8>|
                #[trigger] self.stack_of(k) == if k == key@ && pre.stack_of(k).len() > 0 {
                    pre.stack_of(k).drop_last()
                } else {
                    pre.stack_of(k)
                } by {
            }
            return None;
        }
        proof { pre.lemma_stack_of_at(i as int); }
        let mut s = self.stacks.remove(i);
        let v = s.pop();
        assert(stack_view(s@) =~= pre.stack_at(i as int).drop_last());
        if s.len() == 0 {
            self.keys.remove(i);
            proof { self.lemma_after_remove(pre, i as int); }
            assert forall|k: Seq<u8>|
                #[trigger] self.stack_of(k) == if k == key@ && pre.stack_of(k).len() > 0 {
                    pre.stack_of(k).drop_last()
                } else {
                    pre.stack_of(k)
                } by {
                if k == key@ {
                    assert(pre.stack_of(k).drop_last() =~= Seq::<Seq<u8>>::empty());
                }
            }
        } else {
            self.stacks.insert(i, s);
            assert(self.keys@ == pre.keys@);
            assert forall|j: int| 0 <= j < self.len() implies (#[trigger] self.stacks@[j]@).len() > 0 by {
                if j != i {
                    assert(self.stacks@[j] == pre.stacks@[j]);
                }
            }
            assert forall|j: int| 0 <= j < self.len() implies #[trigger] self.key_at(j) == pre.key_at(j) by {}
            assert(self.wf());
            assert forall|k: Seq<u8>|
                #[trigger] self.stack_of(k) == if k == key@ && pre.stack_of(k).len() > 0 {
                    pre.stack_of(k).drop_last()
                } else {
                    pre.stack_of(k)
                } by {
                if k == key@ {
                    pre.lemma_stack_of_at(i as int);
                    self.lemma_stack_of_at(i as int);
                    assert(self.stack_at(i as int) == stack_view(s@));
                } else if pre.has(k) {
                    let j = choose|j: int| 0 <= j < pre.len() && pre.key_at(j) == k;
                    pre.lemma_stack_of_at(j);
                    self.lemma_stack_of_at(j);
                    assert(self.stack_at(j) == pre.stack_at(j));
                } else if self.has(k) {
                    let j = choose|j: int| 0 <= j < self.len() && self.key_at(j) == k;
                    assert(pre.key_at(j) == k);
                }
            }
        }
        v
    }

    /// Makes `value` the only value under `key`.
    pub fn set(&mut self, key: Bytes, value: Bytes)
        requires
            old(self).wf(),
        ensures
            final(self).wf(),
            forall|k: Seq<u8>|
                #[trigger] final(self).stack_of(k) == if k == key@ {
                    seq![value@]
                } else {
                    old(self).stack_of(k)
                },
    {
        let ghost pre = *self;
        let (found, i) = self.find(key.as_slice());
        if found {
            self.keys.remove(i);
            self.stacks.remove(i);
            let ghost mid = *self;
            proof { mid.lemma_after_remove(pre, i as int); }
            self.keys.insert(i, key);
            self.stacks.insert(i, vec![value]);
            assert forall|j: int| 0 <= j < i implies lex_lt(mid.key_at(j), key@) by {
                assert(mid.key_at(j) == pre.key_at(j));
            }
            assert(i < mid.len() ==> mid.key_at(i as int) == pre.key_at(i + 1));
            proof { self.lemma_after_insert(mid, i as int, key@); }
            assert forall|k: Seq<u8>|
                #[trigger] self.stack_of(k) == if k == key@ {
                    seq![value@]
                } else {
                    pre.stack_of(k)
                } by {
                self.lemma_set_at(mid, i as int, k, key@);
                if k == key@ {
                    assert(self.stack_at(i as int) =~= seq![value@]);
                }
            }
        } else {
            let ghost kv = key@;
            self.keys.insert(i, key);
            self.stacks.insert(i, vec![value]);
            proof { self.lemma_after_insert(pre, i as int, kv); }
            assert forall|k: Seq<u8>|
                #[trigger] self.stack_of(k) == if k == kv {
                    seq![value@]
                } else {
                    pre.stack_of(k)
                } by {
                self.lemma_set_at(pre, i as int, k, kv);
                if k == kv {
                    assert(self.stack_at(i as int) =~= seq![value@]);
                }
            }
        }
    }

    proof fn lemma_set_at(&self, mid: StackMap, i: int, k: Seq<u8>, kv: Seq<u8>)
        requires
            mid.wf(),
            self.wf(),
            !mid.has(kv),
            0 <= i < self.len(),
            self.len() == mid.len() + 1,
            self.key_at(i) == kv,
            forall|j: int| 0 <= j < i ==> self.key_at(j) == mid.key_at(j) && self.stack_at(j) == mid.stack_at(j),
            forall|j: int| i < j < self.len() ==> self.key_at(j) == mid.key_at(j - 1) && self.stack_at(j) == mid.stack_at(j - 1),
        ensures
            k == kv ==> self.stack_of(k) == self.stack_at(i),
            k != kv ==> self.stack_of(k) == mid.stack_of(k),
    {
        if k == kv {
            self.lemma_stack_of_at(i);
        } else if mid.has(k) {
            let j = choose|j: int| 0 <= j < mid.len() && mid.key_at(j) == k;
            mid.lemma_stack_of_at(j);
            if j < i {
                self.lemma_stack_of_at(j);
            } else {
                self.lemma_stack_of_at(j + 1);
            }
        } else if self.has(k) {
            let j = choose|j: int| 0 <= j < self.len() && self.key_at(j) == k;
            if j < i {
                assert(mid.key_at(j) == k);
            } else if j > i {
                assert(mid.key_at(j - 1) == k);
            }
        }
    }

    /// The top value of every key that starts with `prefix`, in key order.
    pub fn scan_tops(&self, prefix: &[u8]) -> (r: Vec<Row>)
        requires
            self.wf(),
        ensures
            is_scan_of(|k: Seq<u8>| self.top(k), prefix@, rows_view(r@)),
    {
        let mut rows: Vec<Row> = Vec::new();
        let ghost src: Seq<int> = Seq::empty();
        let mut i: usize = 0;
        while i < self.keys.len()
            invariant
                self.wf(),
                0 <= i <= self.len(),
                src.len() == rows@.len(),
                forall|r: int| 0 <= r < rows@.len() ==> 0 <= #[trigger] src[r] < i
                    && rows@[r].key@ == self.key_at(src[r])
                    && is_prefix(prefix@, rows@[r].key@)
                    && self.top(rows@[r].key@) == Some(rows@[r].value@),
                forall|a: int, b: int| 0 <= a < b < rows@.len() ==> src[a] < src[b],
                forall|j: int| 0 <= j < i && is_prefix(prefix@, self.key_at(j)) ==> exists|r: int|
                    0 <= r < rows@.len() && #[trigger] src[r] == j,
            decreases self.keys.len() - i,
        {
            let key = &self.keys[i];
            if starts_with(key.as_slice(), prefix) {
                proof { self.lemma_stack_of_at(i as int); }
                let s = &self.stacks[i];
                let top = vstd::slice::slice_to_vec(s[s.len() - 1].as_slice());
                let k = vstd::slice::slice_to_vec(key.as_slice());
                let ghost old_rows = rows@;
                let ghost old_src = src;
                rows.push(Row { key: k, value: top });
                proof {
                    src = src.push(i as int);
                    let n = rows@.len() - 1;
                    assert(src[n] == i);
                    assert(rows@[n].key@ == self.key_at(i as int));
                    assert(self.stack_at(i as int).last() == rows@[n].value@);
                    assert forall|r: int| 0 <= r < rows@.len() implies 0 <= #[trigger] src[r] < i + 1
                        && rows@[r].key@ == self.key_at(src[r])
                        && is_prefix(prefix@, rows@[r].key@)
                        && self.top(rows@[r].key@) == Some(rows@[r].value@) by {
                        if r < n {
                            assert(rows@[r] == old_rows[r]);
                            assert(src[r] == old_src[r]);
                        }
                    }
                    assert forall|j: int| 0 <= j < i + 1 && is_prefix(prefix@, self.key_at(j)) implies exists|r: int|
                        0 <= r < rows@.len() && #[trigger] src[r] == j by {
                        if j < i {
                            let r = choose|r: int| 0 <= r < old_rows.len() && #[trigger] old_src[r] == j;
                            assert(src[r] == j);
                        } else {
                            assert(src[n] == j);
                        }
                    }
                }
            }
            i = i + 1;
        }
        let ghost rv = rows_view(rows@);
        assert forall|r: int| 0 <= r < rv.len() implies is_prefix(prefix@, #[trigger] rv[r].0) && self.top(rv[r].0)
            == Some(rv[r].1) by {
            assert(0 <= src[r] < i);
            assert(rv[r] == rows@[r]@);
        }
        assert forall|a: int, b: int| 0 <= a < b < rv.len() implies lex_lt(rv[a].0, rv[b].0) by {
            assert(src[a] < src[b]);
        }
        assert forall|k: Seq<u8>|
            is_prefix(prefix@, k) && (#[trigger] self.top(k)).is_some() implies exists|r: int|
                0 <= r < rv.len() && (#[trigger] rv[r]).0 == k by {
            let j = choose|j: int| 0 <= j < self.len() && self.key_at(j) == k;
            let r = choose|r: int| 0 <= r < rows@.len() && #[trigger] src[r] == j;
            assert(rv[r] == rows@[r]@);
        }
        rows
    }
}

/// The value that writing `rows` in order leaves under `k`, over `prior`.
pub open spec fn last_write(rows: Seq<(Seq<u8>, Seq<u8>)>, k: Seq<u8>, prior: Option<Seq<u8>>) -> Option<
    Seq<u8>,
>
    decreases rows.len(),
{
    if rows.len() == 0 {
        prior
    } else if rows.last().0 == k {
        Some(rows.last().1)
    } else {
        last_write(rows.drop_last(), k, prior)
    }
}

/// What `last_write` leaves is `prior` or the value of a row with key `k`.
pub proof fn lemma_last_write_source(rows: Seq<(Seq<u8>, Seq<u8>)>, k: Seq<u8>, prior: Option<Seq<u8>>)
    ensures
        last_write(rows, k, prior) == prior || exists|i: int|
            0 <= i < rows.len() && (#[trigger] rows[i]).0 == k && last_write(rows, k, prior) == Some(rows[i].1),
    decreases rows.len(),
{
    if rows.len() > 0 {
        if rows.last().0 == k {
            assert(rows[rows.len() - 1] == rows.last());
        } else {
            lemma_last_write_source(rows.drop_last(), k, prior);
            if last_write(rows, k, prior) != prior {
                let i = choose|i: int|
                    0 <= i < rows.drop_last().len() && (#[trigger] rows.drop_last()[i]).0 == k && last_write(
                        rows.drop_last(),
                        k,
                        prior,
                    ) == Some(rows.drop_last()[i].1);
                assert(rows[i] == rows.drop_last()[i]);
            }
        }
    }
}

/// Key of the row marking a store whose initial import was compacted.
pub const FULL_COMPACTION_MARKER: u8 = 70;

/// An ordered key-value store with batched writes.
pub struct MemStore {
    map: StackMap,
}

impl MemStore {
    pub closed spec fn wf(&self) -> bool {
        self.map.wf()
    }

    pub open spec fn contents(&self) -> spec_fn(Seq<u8>) -> Option<Seq<u8>> {
        |k: Seq<u8>| self.lookup(k)
    }

    pub fn new() -> (r: MemStore)
        ensures
            r.wf(),
            forall|k: Seq<u8>| (#[trigger] r.lookup(k)) is None,
    {
        MemStore { map: StackMap::new() }
    }

    /// Writes `rows` in order; a later row overrides an earlier one with the same key.
    pub fn write(&mut self, rows: Vec<Row>)
        requires
            old(self).wf(),
        ensures
            final(self).wf(),
            forall|k: Seq<u8>|
                #[trigger] final(self).lookup(k) == last_write(rows_view(rows@), k, old(self).lookup(k)),
    {
        let ghost pre = *self;
        let mut i: usize = 0;
        while i < rows.len()
            invariant
                self.wf(),
                0 <= i <= rows@.len(),
                forall|k: Seq<u8>|
                    #[trigger] self.lookup(k) == last_write(
                        rows_view(rows@.subrange(0, i as int)),
                        k,
                        pre.lookup(k),
                    ),
            decreases rows.len() - i,
        {
            let key = vstd::slice::slice_to_vec(rows[i].key.as_slice());
            let value = vstd::slice::slice_to_vec(rows[i].value.as_slice());
            let ghost before = *self;
            self.map.set(key, value);
            assert forall|k: Seq<u8>|
                #[trigger] self.lookup(k) == last_write(
                    rows_view(rows@.subrange(0, i + 1)),
                    k,
                    pre.lookup(k),
                ) by {
                let w = rows_view(rows@.subrange(0, i + 1));
                assert(w.drop_last() =~= rows_view(rows@.subrange(0, i as int)));
                assert(w.last() == rows@[i as int]@);
                assert(before.lookup(k) == last_write(rows_view(rows@.subrange(0, i as int)), k, pre.lookup(k)));
            }
            i = i + 1;
        }
        assert(rows@.subrange(0, i as int) =~= rows@);
    }

    /// Makes staged writes durable; writes here are applied at once.
    pub fn flush(&self) {
    }
}

impl ReadStore for MemStore {
    closed spec fn lookup(&self, key: Seq<u8>) -> Option<Seq<u8>> {
        self.map.top(key)
    }

    closed spec fn store_wf(&self) -> bool {
        self.wf()
    }

    fn get(&self, key: &[u8]) -> (r: Option<Bytes>) {
        self.map.get_top(key)
    }

    fn scan(&self, prefix: &[u8]) -> (r: Vec<Row>) {
        let r = self.map.scan_tops(prefix);
        assert((|k: Seq<u8>| self.lookup(k)) =~= (|k: Seq<u8>| self.map.top(k)));
        r
    }
}

/// The key of the full-compaction marker row.
pub open spec fn marker_key() -> Seq<u8> {
    seq![FULL_COMPACTION_MARKER]
}

/// Marks the store as compacted once its initial import is over.
pub fn full_compaction(store: MemStore) -> (r: MemStore)
    requires
        store.wf(),
    ensures
        r.wf(),
        r.lookup(marker_key()) == Some(Seq::<u8>::empty()),
        forall|k: Seq<u8>| k != marker_key() ==> #[trigger] r.lookup(k) == store.lookup(k),
{
    let mut store = store;
    store.flush();
    let mut rows: Vec<Row> = Vec::new();
    rows.push(Row { key: vec![FULL_COMPACTION_MARKER], value: Vec::new() });
    let ghost pre = store;
    store.write(rows);
    assert forall|k: Seq<u8>| #[trigger] store.lookup(k) == if k == marker_key() {
        Some(Seq::<u8>::empty())
    } else {
        pre.lookup(k)
    } by {
        reveal_with_fuel(last_write, 2);
        let w = rows_view(rows@);
        assert(w.drop_last() =~= Seq::<(Seq<u8>, Seq<u8>)>::empty());
        assert(w.last().0 =~= marker_key());
        assert(w.last().1 =~= Seq::<u8>::empty());
    }
    store
}

/// Whether the store holds the full-compaction marker.
pub fn is_fully_compacted(store: &MemStore) -> (r: bool)
    requires
        store.wf(),
    ensures
        r == store.lookup(marker_key()).is_some(),
{
    let key: Vec<u8> = vec![FULL_COMPACTION_MARKER];
    assert(key@ =~= marker_key());
    store.get(key.as_slice()).is_some()
}

} // verus!
