//! The runtime's persistent key/value memory. Keys are free-form byte
//! strings (by convention prefixed with the owning rule's id); values are
//! byte strings. The runtime loop owns one `Memory` and threads it through
//! every step; rules read and write it only for the duration of one step.

use vstd::prelude::*;

verus! {

/// The mathematical value of a list of key/value pairs.
pub open spec fn pairs_view(s: Seq<(Vec<u8>, Vec<u8>)>) -> Seq<(Seq<u8>, Seq<u8>)> {
    s.map_values(|p: (Vec<u8>, Vec<u8>)| (p.0@, p.1@))
}

/// True iff no key occurs twice in the list.
pub open spec fn keys_unique(s: Seq<(Seq<u8>, Seq<u8>)>) -> bool {
    forall|i: int, j: int| 0 <= i < j < s.len() ==> s[i].0 != s[j].0
}

/// The value bound to `k`: the first pair whose key is `k`, if any.
pub open spec fn kv_lookup(s: Seq<(Seq<u8>, Seq<u8>)>, k: Seq<u8>) -> Option<Seq<u8>>
    decreases s.len(),
{
    if s.len() == 0 {
        None
    } else if s[0].0 == k {
        Some(s[0].1)
    } else {
        kv_lookup(s.skip(1), k)
    }
}

/// The list with `k` bound to `v`: the first pair whose key is `k` is
/// replaced in place, keeping the order of the list; if no pair has key `k`,
/// the new pair is appended.
pub open spec fn kv_store(s: Seq<(Seq<u8>, Seq<u8>)>, k: Seq<u8>, v: Seq<u8>) -> Seq<
    (Seq<u8>, Seq<u8>),
>
    decreases s.len(),
{
    if s.len() == 0 {
        seq![(k, v)]
    } else if s[0].0 == k {
        seq![(k, v)] + s.skip(1)
    } else {
        seq![s[0]] + kv_store(s.skip(1), k, v)
    }
}

/// When `k` first occurs at index `j`, storing under `k` is an update at `j`.
pub proof fn lemma_store_is_update(s: Seq<(Seq<u8>, Seq<u8>)>, k: Seq<u8>, v: Seq<u8>, j: int)
    requires
        0 <= j < s.len(),
        s[j].0 == k,
        forall|i: int| 0 <= i < j ==> s[i].0 != k,
    ensures
        kv_store(s, k, v) == s.update(j, (k, v)),
    decreases s.len(),
{
    if j == 0 {
        assert(kv_store(s, k, v) =~= s.update(0, (k, v)));
    } else {
        lemma_store_is_update(s.skip(1), k, v, j - 1);
        assert(seq![s[0]] + s.skip(1).update(j - 1, (k, v)) =~= s.update(j, (k, v)));
    }
}

/// When `k` does not occur, storing under `k` appends the pair.
pub proof fn lemma_store_is_push(s: Seq<(Seq<u8>, Seq<u8>)>, k: Seq<u8>, v: Seq<u8>)
    requires
        forall|i: int| 0 <= i < s.len() ==> s[i].0 != k,
    ensures
        kv_store(s, k, v) == s.push((k, v)),
    decreases s.len(),
{
    if s.len() == 0 {
        assert(kv_store(s, k, v) =~= s.push((k, v)));
    } else {
        lemma_store_is_push(s.skip(1), k, v);
        assert(seq![s[0]] + s.skip(1).push((k, v)) =~= s.push((k, v)));
    }
}

/// Storing never breaks key uniqueness.
pub proof fn lemma_store_keys_unique(s: Seq<(Seq<u8>, Seq<u8>)>, k: Seq<u8>, v: Seq<u8>)
    requires
        keys_unique(s),
    ensures
        keys_unique(kv_store(s, k, v)),
    decreases s.len(),
{
    if s.len() == 0 {
    } else if s[0].0 == k {
        let t = seq![(k, v)] + s.skip(1);
        assert forall|i: int, j: int| 0 <= i < j < t.len() implies t[i].0 != t[j].0 by {
            assert(t[j] == s[j]);
            if i > 0 {
                assert(t[i] == s[i]);
            }
        }
    } else {
        lemma_store_keys_unique(s.skip(1), k, v);
        let r = kv_store(s.skip(1), k, v);
        let t = seq![s[0]] + r;
        lemma_store_no_new_key(s.skip(1), k, v, s[0].0);
        assert forall|i: int, j: int| 0 <= i < j < t.len() implies t[i].0 != t[j].0 by {
            if i > 0 {
                assert(t[i] == r[i - 1] && t[j] == r[j - 1]);
            }
        }
    }
}

/// Every key of the stored list is a key of the original list or `k` itself.
pub proof fn lemma_store_no_new_key(
    s: Seq<(Seq<u8>, Seq<u8>)>,
    k: Seq<u8>,
    v: Seq<u8>,
    other: Seq<u8>,
)
    requires
        other != k,
        forall|i: int| 0 <= i < s.len() ==> s[i].0 != other,
    ensures
        forall|i: int| 0 <= i < kv_store(s, k, v).len() ==> kv_store(s, k, v)[i].0 != other,
    decreases s.len(),
{
    if s.len() == 0 {
    } else if s[0].0 == k {
    } else {
        lemma_store_no_new_key(s.skip(1), k, v, other);
        let r = kv_store(s.skip(1), k, v);
        let t = seq![s[0]] + r;
        assert forall|i: int| 0 <= i < t.len() implies t[i].0 != other by {
            if i > 0 {
                assert(t[i] == r[i - 1]);
            }
        }
    }
}

/// After a store, `k` is bound to `v` and every other key keeps its binding.
pub proof fn lemma_store_lookup(s: Seq<(Seq<u8>, Seq<u8>)>, k: Seq<u8>, v: Seq<u8>, q: Seq<u8>)
    ensures
        kv_lookup(kv_store(s, k, v), q) == if q == k {
            Some(v)
        } else {
            kv_lookup(s, q)
        },
    decreases s.len(),
{
    if s.len() == 0 {
        let t = seq![(k, v)];
        assert(kv_store(s, k, v) == t);
        assert(t.skip(1) =~= Seq::<(Seq<u8>, Seq<u8>)>::empty());
        assert(kv_lookup(Seq::<(Seq<u8>, Seq<u8>)>::empty(), q) is None);
        assert(t[0] == (k, v));
        if q == k {
            assert(kv_lookup(t, q) == Some(v));
        } else {
            assert(kv_lookup(t, q) == kv_lookup(t.skip(1), q));
            assert(kv_lookup(t, q) is None);
        }
    } else if s[0].0 == k {
        let t = seq![(k, v)] + s.skip(1);
        assert(kv_store(s, k, v) == t);
        assert(t.skip(1) =~= s.skip(1));
        assert(t[0] == (k, v));
        if q == k {
            assert(kv_lookup(t, q) == Some(v));
        } else {
            assert(kv_lookup(t, q) == kv_lookup(s.skip(1), q));
            assert(kv_lookup(s, q) == kv_lookup(s.skip(1), q));
        }
    } else {
        lemma_store_lookup(s.skip(1), k, v, q);
        let t = seq![s[0]] + kv_store(s.skip(1), k, v);
        assert(kv_store(s, k, v) == t);
        assert(t.skip(1) =~= kv_store(s.skip(1), k, v));
        assert(t[0] == s[0]);
        if q == s[0].0 {
            assert(kv_lookup(t, q) == Some(t[0].1));
            assert(kv_lookup(s, q) == Some(s[0].1));
        } else {
            assert(kv_lookup(t, q) == kv_lookup(kv_store(s.skip(1), k, v), q));
            assert(kv_lookup(s, q) == kv_lookup(s.skip(1), q));
        }
    }
}

/// The key/value memory carried across steps and restarts.
pub struct Memory {
    /// The pairs held, in insertion order. Well-formed memories (see
    /// [`Memory::wf`]) never bind the same key twice.
    pub entries: Vec<(Vec<u8>, Vec<u8>)>,
}

impl View for Memory {
    type V = Seq<(Seq<u8>, Seq<u8>)>;

    open spec fn view(&self) -> Seq<(Seq<u8>, Seq<u8>)> {
        pairs_view(self.entries@)
    }
}

impl Memory {
    /// A memory is well formed when no key occurs twice.
    pub open spec fn wf(&self) -> bool {
        keys_unique(self@)
    }

    /// The empty memory.
    pub fn new() -> (r: Memory)
        ensures
            r@ == Seq::<(Seq<u8>, Seq<u8>)>::empty(),
            r.wf(),
    {
        let r = Memory { entries: Vec::new() };
        proof {
            assert(r@ =~= Seq::<(Seq<u8>, Seq<u8>)>::empty());
        }
        r
    }

    /// The number of keys held.
    pub fn len(&self) -> (r: usize)
        ensures
            r == self@.len(),
    {
        self.entries.len()
    }

    /// The value bound to `key`, as a fresh copy, or `None` when the key is
    /// absent.
    pub fn get(&self, key: &Vec<u8>) -> (r: Option<Vec<u8>>)
        ensures
            match r {
                Some(v) => kv_lookup(self@, key@) == Some(v@),
                None => kv_lookup(self@, key@) is None,
            },
    {
        let n = self.entries.len();
        let mut i: usize = 0;
        proof {
            assert(self@.skip(0) =~= self@);
        }
        while i < n
            invariant
                n == self.entries@.len(),
                0 <= i <= n,
                kv_lookup(self@, key@) == kv_lookup(self@.skip(i as int), key@),
            decreases n - i,
        {
            proof {
                assert(self@.skip(i as int).len() > 0);
                assert(self@.skip(i as int)[0] == self@[i as int]);
                assert(self@.skip(i as int).skip(1) =~= self@.skip(i + 1));
            }
            let pair = &self.entries[i];
            if crate::bytestr::bytes_eq(&pair.0, key) {
                let mut out: Vec<u8> = Vec::new();
                crate::bytestr::push_bytes(&mut out, &pair.1);
                proof {
                    assert(Seq::<u8>::empty() + pair.1@ =~= pair.1@);
                    assert(self@[i as int] == (pair.0@, pair.1@));
                }
                return Some(out);
            }
            i += 1;
        }
        proof {
            assert(self@.skip(n as int) =~= Seq::<(Seq<u8>, Seq<u8>)>::empty());
        }
        None
    }

    /// Binds `key` to `value`: replaces the first pair with that key in
    /// place, or appends a new pair when the key is absent.
    /// The index of the first pair whose key is `key`, if any.
    fn find_key(&self, key: &Vec<u8>) -> (r: Option<usize>)
        ensures
            match r {
                Some(j) => 0 <= j < self@.len() && self@[j as int].0 == key@ && forall|i: int|
                    0 <= i < j ==> self@[i].0 != key@,
                None => forall|i: int| 0 <= i < self@.len() ==> self@[i].0 != key@,
            },
    {
        let n = self.entries.len();
        let mut i: usize = 0;
        while i < n
            invariant
                0 <= i <= n,
                forall|j: int| 0 <= j < i ==> self@[j].0 != key@,
            decreases n - i,
        {
            let pair = &self.entries[i];
            proof {
                assert(self@[i as int] == (pair.0@, pair.1@));
            }
            if crate::bytestr::bytes_eq(&pair.0, key) {
                return Some(i);
            }
            i += 1;
        }
        None
    }

    pub fn set(&mut self, key: Vec<u8>, value: Vec<u8>)
        requires
            old(self).wf(),
        ensures
            final(self).wf(),
            final(self)@ == kv_store(old(self)@, key@, value@),
            kv_lookup(final(self)@, key@) == Some(value@),
            forall|q: Seq<u8>|
                q != key@ ==> kv_lookup(final(self)@, q) == kv_lookup(old(self)@, q),
    {
        let ghost s = self@;
        proof {
            lemma_store_keys_unique(s, key@, value@);
            assert forall|q: Seq<u8>| true implies kv_lookup(kv_store(s, key@, value@), q) == if q
                == key@ {
                Some(value@)
            } else {
                kv_lookup(s, q)
            } by {
                lemma_store_lookup(s, key@, value@, q);
            }
        }
        match self.find_key(&key) {
            Some(j) => {
                proof {
                    lemma_store_is_update(s, key@, value@, j as int);
                }
                self.entries.set(j, (key, value));
                proof {
                    assert(self@ =~= s.update(j as int, (key@, value@)));
                }
            },
            None => {
                proof {
                    lemma_store_is_push(s, key@, value@);
                }
                self.entries.push((key, value));
                proof {
                    assert(self@ =~= s.push((key@, value@)));
                }
            },
        }
    }

    /// A field-for-field copy.
    pub fn duplicate(&self) -> (r: Memory)
        ensures
            r@ == self@,
    {
        let mut entries: Vec<(Vec<u8>, Vec<u8>)> = Vec::new();
        let n = self.entries.len();
        let mut i: usize = 0;
        proof {
            assert(pairs_view(entries@) =~= self@.take(0));
        }
        while i < n
            invariant
                0 <= i <= n,
                n == self.entries@.len(),
                pairs_view(entries@) == self@.take(i as int),
            decreases n - i,
        {
            let pair = &self.entries[i];
            let ghost before = entries@;
            entries.push((crate::bytestr::bytes_clone(&pair.0), crate::bytestr::bytes_clone(
                &pair.1,
            )));
            proof {
                assert(self@[i as int] == (pair.0@, pair.1@));
                assert(pairs_view(entries@) =~= self@.take(i as int + 1)) by {
                    assert forall|j: int|
                        0 <= j < pairs_view(entries@).len() implies pairs_view(entries@)[j]
                        == self@.take(i as int + 1)[j] by {
                        assert(pairs_view(entries@)[j] == (entries@[j].0@, entries@[j].1@));
                        if j < i as int {
                            assert(entries@[j] == before[j]);
                            assert(pairs_view(before)[j] == (before[j].0@, before[j].1@));
                        }
                    }
                }
            }
            i += 1;
        }
        proof {
            assert(self@.take(n as int) =~= self@);
        }
        Memory { entries }
    }

    /// The pairs held, in order; used to snapshot the memory at shutdown.
    pub fn entries(&self) -> (r: &Vec<(Vec<u8>, Vec<u8>)>)
        ensures
            pairs_view(r@) == self@,
    {
        &self.entries
    }

    /// Rebuilds a memory from a restored pair list, later pairs overriding
    /// earlier ones with the same key.
    pub fn from_entries(list: Vec<(Vec<u8>, Vec<u8>)>) -> (r: Memory)
        ensures
            r.wf(),
            r@ == kv_store_all(pairs_view(list@)),
    {
        let mut r = Memory::new();
        let mut rest = list;
        let ghost all = pairs_view(rest@);
        let n = rest.len();
        let mut i: usize = 0;
        proof {
            assert(kv_store_fold(Seq::<(Seq<u8>, Seq<u8>)>::empty(), all.take(0)) =~= r@);
            assert(pairs_view(rest@) =~= all.skip(0));
        }
        while rest.len() > 0
            invariant
                n == all.len(),
                i as int + rest@.len() == all.len(),
                pairs_view(rest@) == all.skip(i as int),
                r.wf(),
                r@ == kv_store_fold(Seq::<(Seq<u8>, Seq<u8>)>::empty(), all.take(i as int)),
            decreases rest@.len(),
        {
            let ghost prev = rest@;
            let pair = rest.remove(0);
            proof {
                assert(pairs_view(prev)[0] == (prev[0].0@, prev[0].1@));
                assert(all[i as int] == (pair.0@, pair.1@));
                assert(pairs_view(rest@) =~= all.skip(i as int + 1)) by {
                    assert(rest@ =~= prev.skip(1));
                    assert forall|j: int| 0 <= j < pairs_view(rest@).len() implies pairs_view(
                        rest@,
                    )[j] == all.skip(i as int + 1)[j] by {
                        assert(rest@[j] == prev[j + 1]);
                        assert(pairs_view(rest@)[j] == (prev[j + 1].0@, prev[j + 1].1@));
                        assert(all.skip(i as int + 1)[j] == all[i as int + 1 + j]);
                        assert(pairs_view(prev)[j + 1] == (prev[j + 1].0@, prev[j + 1].1@));
                        assert(all.skip(i as int)[j + 1] == all[i as int + 1 + j]);
                    }
                }
            }
            r.set(pair.0, pair.1);
            proof {
                assert(all.take(i as int + 1).drop_last() =~= all.take(i as int));
                assert(all.take(i as int + 1).last() == all[i as int]);
            }
            i += 1;
        }
        proof {
            assert(all.take(i as int) =~= all);
        }
        r
    }
}

/// The memory that results from storing each pair of `s` in order into an
/// empty memory.
pub open spec fn kv_store_all(s: Seq<(Seq<u8>, Seq<u8>)>) -> Seq<(Seq<u8>, Seq<u8>)> {
    kv_store_fold(Seq::<(Seq<u8>, Seq<u8>)>::empty(), s)
}

/// Stores each pair of `adds`, in order, into `base`.
pub open spec fn kv_store_fold(
    base: Seq<(Seq<u8>, Seq<u8>)>,
    adds: Seq<(Seq<u8>, Seq<u8>)>,
) -> Seq<(Seq<u8>, Seq<u8>)>
    decreases adds.len(),
{
    if adds.len() == 0 {
        base
    } else {
        kv_store(kv_store_fold(base, adds.drop_last()), adds.last().0, adds.last().1)
    }
}

} // verus!
