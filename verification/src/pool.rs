//! Interning pools: they assign dense indices to first occurrences, so
//! that the codecs can replace repeated names and peer ids by small
//! integers.

use vstd::prelude::*;

verus! {

/// The index of the first occurrence of `x`, or the length when absent.
pub open spec fn first_index<T>(views: Seq<T>, x: T) -> int
    decreases views.len(),
{
    if views.len() == 0 {
        0
    } else if views.first() == x {
        0
    } else {
        1 + first_index(views.drop_first(), x)
    }
}

/// `first_index` names the first occurrence: everything before it differs
/// from `x`, and it lands on `x` unless `x` is absent, in which case it is
/// the length. In particular the index is a function of the pool state
/// and the value alone: equal inputs receive equal indices.
pub proof fn lemma_first_index<T>(views: Seq<T>, x: T)
    ensures
        0 <= first_index(views, x) <= views.len(),
        forall|k: int| 0 <= k < first_index(views, x) ==> views[k] != x,
        first_index(views, x) < views.len() ==> views[first_index(views, x)] == x,
        first_index(views, x) == views.len() ==> forall|k: int|
            0 <= k < views.len() ==> views[k] != x,
    decreases views.len(),
{
    if views.len() > 0 && views.first() != x {
        lemma_first_index(views.drop_first(), x);
        assert forall|k: int| 0 <= k < first_index(views, x) implies views[k] != x by {
            if k > 0 {
                assert(views.drop_first()[k - 1] == views[k]);
            }
        }
        if first_index(views, x) < views.len() {
            assert(views.drop_first()[first_index(views, x) - 1] == views[first_index(views, x)]);
        }
        if first_index(views, x) == views.len() {
            assert forall|k: int| 0 <= k < views.len() implies views[k] != x by {
                if k > 0 {
                    assert(views.drop_first()[k - 1] == views[k]);
                }
            }
        }
    }
}

/// The string views a pool holds.
pub open spec fn str_views(pool: Seq<String>) -> Seq<Seq<char>> {
    pool.map_values(|s: String| s@)
}

/// A deduplicating pool of strings.
pub struct StrPool {
    pub pool: Vec<String>,
}

impl StrPool {
    /// Distinct contents.
    pub open spec fn wf(self) -> bool {
        forall|i: int, j: int|
            0 <= i < j < self.pool@.len() ==> self.pool@[i]@ != self.pool@[j]@
    }

    /// An empty pool.
    pub fn new() -> (r: Self)
        ensures
            r.wf(),
            r.pool@.len() == 0,
    {
        StrPool { pool: Vec::new() }
    }

    /// The index of `s`, interning it first when absent. For a given pool
    /// state the result is a function of the string's characters alone.
    pub fn intern(&mut self, s: &str) -> (r: usize)
        requires
            old(self).wf(),
        ensures
            final(self).wf(),
            r == first_index(str_views(old(self).pool@), s@),
            r < final(self).pool@.len(),
            final(self).pool@[r as int]@ == s@,
            (if first_index(str_views(old(self).pool@), s@) < old(self).pool@.len() {
                final(self).pool@ == old(self).pool@
            } else {
                final(self).pool@.len() == old(self).pool@.len() + 1 && final(self).pool@.last()@
                    == s@ && final(self).pool@.drop_last() == old(self).pool@
            }),
    {
        let ghost views = str_views(self.pool@);
        proof {
            lemma_first_index(views, s@);
        }
        let key: String = s.to_owned();
        let mut i: usize = 0;
        while i < self.pool.len()
            invariant
                i <= self.pool@.len(),
                key@ == s@,
                self.pool@ == old(self).pool@,
                old(self).wf(),
                views == str_views(self.pool@),
                forall|k: int| 0 <= k < i ==> (#[trigger] self.pool@[k])@ != s@,
            decreases self.pool@.len() - i,
        {
            if self.pool[i] == key {
                proof {
                    assert(views[i as int] == s@);
                    lemma_first_index_hit(views, s@, i as int);
                }
                return i;
            }
            proof {
                assert(views[i as int] == self.pool@[i as int]@);
            }
            i += 1;
        }
        proof {
            assert forall|k: int| 0 <= k < views.len() implies views[k] != s@ by {
                assert(views[k] == self.pool@[k]@);
            }
            if first_index(views, s@) < views.len() {
                assert(views[first_index(views, s@)] == s@);
            }
        }
        let r = self.pool.len();
        let ghost pool0 = self.pool@;
        self.pool.push(key);
        proof {
            assert(self.pool@.drop_last() =~= pool0);
            assert forall|a: int, b: int| 0 <= a < b < self.pool@.len() implies self.pool@[a]@
                != self.pool@[b]@ by {
                if b == pool0.len() {
                    assert(self.pool@[a] == pool0[a]);
                    assert(self.pool@[b]@ == s@);
                } else {
                    assert(self.pool@[a] == pool0[a]);
                    assert(self.pool@[b] == pool0[b]);
                }
            }
        }
        r
    }

    /// The string at an index.
    pub fn get(&self, i: usize) -> (r: &String)
        requires
            i < self.pool@.len(),
        ensures
            r == &self.pool@[i as int],
    {
        &self.pool[i]
    }

    /// The index of `s` when present.
    pub fn get_index(&self, s: &str) -> (r: Option<usize>)
        requires
            self.wf(),
        ensures
            match r {
                Some(i) => i < self.pool@.len() && self.pool@[i as int]@ == s@,
                None => forall|k: int| 0 <= k < self.pool@.len() ==> (#[trigger] self.pool@[k])@
                    != s@,
            },
    {
        let key: String = s.to_owned();
        let mut i: usize = 0;
        while i < self.pool.len()
            invariant
                i <= self.pool@.len(),
                key@ == s@,
                forall|k: int| 0 <= k < i ==> (#[trigger] self.pool@[k])@ != s@,
            decreases self.pool@.len() - i,
        {
            if self.pool[i] == key {
                return Some(i);
            }
            i += 1;
        }
        None
    }

    /// The pool contents, in registration order.
    pub fn finish(self) -> (r: Vec<String>)
        ensures
            r == self.pool,
    {
        self.pool
    }
}

/// If everything before `i` differs and `views[i]` hits, `i` is first.
pub proof fn lemma_first_index_hit<T>(views: Seq<T>, x: T, i: int)
    requires
        0 <= i < views.len(),
        views[i] == x,
        forall|k: int| 0 <= k < i ==> views[k] != x,
    ensures
        first_index(views, x) == i,
    decreases i,
{
    if i > 0 {
        assert forall|k: int| 0 <= k < i - 1 implies views.drop_first()[k] != x by {
            assert(views.drop_first()[k] == views[k + 1]);
        }
        assert(views.drop_first()[i - 1] == views[i]);
        lemma_first_index_hit(views.drop_first(), x, i - 1);
    }
}

/// A deduplicating pool of peer identifiers.
pub struct Register {
    pub pool: Vec<u64>,
}

impl Register {
    pub open spec fn wf(self) -> bool {
        forall|i: int, j: int| 0 <= i < j < self.pool@.len() ==> self.pool@[i] != self.pool@[j]
    }

    /// An empty pool.
    pub fn new() -> (r: Self)
        ensures
            r.wf(),
            r.pool@.len() == 0,
    {
        Register { pool: Vec::new() }
    }

    /// The index of `value`, interning it first when absent. For a given
    /// pool state the result is a function of the value alone.
    pub fn register(&mut self, value: u64) -> (r: usize)
        requires
            old(self).wf(),
        ensures
            final(self).wf(),
            r == first_index(old(self).pool@, value),
            r < final(self).pool@.len(),
            final(self).pool@[r as int] == value,
            (if first_index(old(self).pool@, value) < old(self).pool@.len() {
                final(self).pool@ == old(self).pool@
            } else {
                final(self).pool@ == old(self).pool@.push(value)
            }),
    {
        let ghost views = self.pool@;
        proof {
            lemma_first_index(views, value);
        }
        let mut i: usize = 0;
        while i < self.pool.len()
            invariant
                i <= self.pool@.len(),
                self.pool@ == old(self).pool@,
                old(self).wf(),
                views == self.pool@,
                forall|k: int| 0 <= k < i ==> self.pool@[k] != value,
            decreases self.pool@.len() - i,
        {
            if self.pool[i] == value {
                proof {
                    lemma_first_index_hit(views, value, i as int);
                }
                return i;
            }
            i += 1;
        }
        let r = self.pool.len();
        let ghost pool0 = self.pool@;
        self.pool.push(value);
        proof {
            assert forall|a: int, b: int| 0 <= a < b < self.pool@.len() implies self.pool@[a]
                != self.pool@[b] by {
                assert(self.pool@[a] == pool0[a]);
                if b < pool0.len() {
                    assert(self.pool@[b] == pool0[b]);
                }
            }
            lemma_first_index(pool0, value);
        }
        r
    }

    /// The index of `value` when present, without interning.
    pub fn index_of(&self, value: u64) -> (r: Option<usize>)
        ensures
            match r {
                Some(i) => i < self.pool@.len() && self.pool@[i as int] == value,
                None => forall|k: int| 0 <= k < self.pool@.len() ==> self.pool@[k] != value,
            },
    {
        let mut i: usize = 0;
        while i < self.pool.len()
            invariant
                i <= self.pool@.len(),
                forall|k: int| 0 <= k < i ==> self.pool@[k] != value,
            decreases self.pool@.len() - i,
        {
            if self.pool[i] == value {
                return Some(i);
            }
            i += 1;
        }
        None
    }

    /// The pool contents, in registration order.
    pub fn finish(self) -> (r: Vec<u64>)
        ensures
            r == self.pool,
    {
        self.pool
    }
}

} // verus!
