//! The foundational building block of the tree: a fixed-capacity associative
//! array, sorted ascending by unique key. It serves both as the routing index
//! inside a node and as terminal data storage.

use vstd::prelude::*;

verus! {

/// Fixed capacity of every sorted array in the tree, for bucket indexes and
/// data leaves alike.
pub const ARRAY_SIZE: usize = 12;

/// The keys of `s` are strictly ascending.
pub open spec fn sorted_keys<V>(s: Seq<(usize, V)>) -> bool {
    forall|i: int, j: int| 0 <= i < j < s.len() ==> s[i].0 < s[j].0
}

/// Some entry of `s` carries `key`.
pub open spec fn has_key<V>(s: Seq<(usize, V)>, key: usize) -> bool {
    exists|i: int| 0 <= i < s.len() && (#[trigger] s[i]).0 == key
}

/// Some entry of `s` is exactly `(key, value)`.
pub open spec fn has_entry<V>(s: Seq<(usize, V)>, key: usize, value: V) -> bool {
    exists|i: int| 0 <= i < s.len() && (#[trigger] s[i]).0 == key && s[i].1 == value
}

/// How many entries of `s` have a key below `key`. In a sorted sequence this
/// is the position at which `key` belongs.
pub open spec fn num_lt<V>(s: Seq<(usize, V)>, key: usize) -> int
    decreases s.len(),
{
    if s.len() == 0 {
        0
    } else {
        num_lt(s.drop_last(), key) + if s.last().0 < key {
            1int
        } else {
            0int
        }
    }
}

/// `s` with `(key, value)` placed at its sorted position.
pub open spec fn sorted_insert<V>(s: Seq<(usize, V)>, key: usize, value: V) -> Seq<(usize, V)> {
    s.insert(num_lt(s, key), (key, value))
}

pub proof fn lemma_num_lt_bounds<V>(s: Seq<(usize, V)>, key: usize)
    ensures
        0 <= num_lt(s, key) <= s.len(),
    decreases s.len(),
{
    if s.len() > 0 {
        lemma_num_lt_bounds(s.drop_last(), key);
    }
}

/// In a sorted sequence, the entries below `key` are exactly the first
/// `num_lt` ones.
pub proof fn lemma_num_lt_sorted<V>(s: Seq<(usize, V)>, key: usize)
    requires
        sorted_keys(s),
    ensures
        0 <= num_lt(s, key) <= s.len(),
        forall|j: int| 0 <= j < num_lt(s, key) ==> (#[trigger] s[j]).0 < key,
        forall|j: int| num_lt(s, key) <= j < s.len() ==> (#[trigger] s[j]).0 >= key,
    decreases s.len(),
{
    lemma_num_lt_bounds(s, key);
    if s.len() > 0 {
        let p = s.drop_last();
        assert(sorted_keys(p)) by {
            assert(forall|i: int, j: int|
                0 <= i < j < p.len() ==> (#[trigger] p[i]).0 < (#[trigger] p[j]).0) by {
                assert(forall|i: int| 0 <= i < p.len() ==> p[i] == s[i]);
            }
        }
        lemma_num_lt_sorted(p, key);
        if s.last().0 < key {
            // every earlier entry is below the last one, hence below key
            assert(forall|j: int| 0 <= j < s.len() - 1 ==> (#[trigger] s[j]).0 < key) by {
                assert(forall|j: int| 0 <= j < s.len() - 1 ==> (#[trigger] s[j]).0 < s[s.len() - 1].0);
            }
            assert(num_lt(p, key) == p.len()) by {
                if num_lt(p, key) < p.len() {
                    assert(p[num_lt(p, key)].0 >= key);
                    assert(p[num_lt(p, key)] == s[num_lt(p, key)]);
                }
            }
        } else {
            assert(forall|j: int| 0 <= j < p.len() ==> p[j] == s[j]);
        }
    }
}

/// Keys are unique in a sorted sequence, so a key pins its entry's value
/// down.
pub proof fn lemma_sorted_entry_unique<V>(s: Seq<(usize, V)>, k: usize, v1: V, v2: V)
    requires
        sorted_keys(s),
        has_entry(s, k, v1),
        has_entry(s, k, v2),
    ensures
        v1 == v2,
{
    let i1 = choose|i: int| 0 <= i < s.len() && (#[trigger] s[i]).0 == k && s[i].1 == v1;
    let i2 = choose|i: int| 0 <= i < s.len() && (#[trigger] s[i]).0 == k && s[i].1 == v2;
    if i1 < i2 {
        assert(s[i1].0 < s[i2].0);
    }
    if i2 < i1 {
        assert(s[i2].0 < s[i1].0);
    }
}

/// What placing an absent key into a sorted sequence does: one entry more,
/// still sorted, the stored pairs extended by exactly `(key, value)`, and the
/// last entry updated only when `key` goes past it.
pub proof fn lemma_sorted_insert_props<V>(s: Seq<(usize, V)>, key: usize, value: V)
    requires
        sorted_keys(s),
        !has_key(s, key),
    ensures
        sorted_insert(s, key, value).len() == s.len() + 1,
        sorted_keys(sorted_insert(s, key, value)),
        forall|k: usize, v: V|
            #[trigger] has_entry(sorted_insert(s, key, value), k, v) == (has_entry(s, k, v) || (k
                == key && v == value)),
        forall|k: usize|
            #[trigger] has_key(sorted_insert(s, key, value), k) == (has_key(s, k) || k == key),
        s.len() > 0 && s.last().0 > key ==> sorted_insert(s, key, value).last() == s.last(),
        s.len() == 0 || s.last().0 < key ==> sorted_insert(s, key, value).last() == (key, value),
{
    let t = sorted_insert(s, key, value);
    let p = num_lt(s, key);
    lemma_num_lt_sorted(s, key);
    assert(forall|j: int| 0 <= j < p ==> t[j] == s[j]);
    assert(t[p] == (key, value));
    assert(forall|j: int| p < j < t.len() ==> t[j] == s[j - 1]);
    assert(forall|j: int| p <= j < s.len() ==> (#[trigger] s[j]).0 > key) by {
        assert(forall|j: int| p <= j < s.len() ==> (#[trigger] s[j]).0 >= key);
        if exists|j: int| p <= j < s.len() && (#[trigger] s[j]).0 == key {
            let j = choose|j: int| p <= j < s.len() && (#[trigger] s[j]).0 == key;
            assert(has_key(s, key));
        }
    }
    assert(sorted_keys(t)) by {
        assert(forall|i: int, j: int|
            0 <= i < j < t.len() ==> (#[trigger] t[i]).0 < (#[trigger] t[j]).0);
    }
    assert forall|k: usize, v: V|
        has_entry(t, k, v) == (has_entry(s, k, v) || (k == key && v == value)) by {
        if has_entry(t, k, v) {
            let j = choose|j: int| 0 <= j < t.len() && (#[trigger] t[j]).0 == k && t[j].1 == v;
            if j < p {
                assert(s[j].0 == k && s[j].1 == v);
                assert(has_entry(s, k, v));
            } else if j > p {
                assert(s[j - 1].0 == k && s[j - 1].1 == v);
                assert(has_entry(s, k, v));
            }
        }
        if has_entry(s, k, v) {
            let j = choose|j: int| 0 <= j < s.len() && (#[trigger] s[j]).0 == k && s[j].1 == v;
            if j < p {
                assert(t[j].0 == k && t[j].1 == v);
            } else {
                assert(t[j + 1].0 == k && t[j + 1].1 == v);
            }
            assert(has_entry(t, k, v));
        }
        if k == key && v == value {
            assert(t[p].0 == k && t[p].1 == v);
            assert(has_entry(t, k, v));
        }
    }
    assert forall|k: usize| has_key(t, k) == (has_key(s, k) || k == key) by {
        if has_key(t, k) {
            let j = choose|j: int| 0 <= j < t.len() && (#[trigger] t[j]).0 == k;
            if j < p {
                assert(s[j].0 == k);
                assert(has_key(s, k));
            } else if j > p {
                assert(s[j - 1].0 == k);
                assert(has_key(s, k));
            }
        }
        if has_key(s, k) {
            let j = choose|j: int| 0 <= j < s.len() && (#[trigger] s[j]).0 == k;
            if j < p {
                assert(t[j].0 == k);
            } else {
                assert(t[j + 1].0 == k);
            }
            assert(has_key(t, k));
        }
        if k == key {
            assert(t[p].0 == k);
            assert(has_key(t, k));
        }
    }
    if s.len() > 0 && s.last().0 > key {
        assert(p < s.len());
        assert(t.last() == s.last());
    }
    if s.len() == 0 || s.last().0 < key {
        assert(p == s.len()) by {
            if s.len() > 0 && p < s.len() {
                assert(s[s.len() - 1].0 < key);
                assert(s[p].0 >= key);
                if p < s.len() - 1 {
                    assert(s[p].0 < s[s.len() - 1].0);
                }
            }
        }
        assert(t.last() == (key, value));
    }
}

/// A fixed-capacity array of entries, sorted ascending by unique key.
pub struct Leaf<V> {
    entries: Vec<(usize, V)>,
}

impl<V> View for Leaf<V> {
    type V = Seq<(usize, V)>;

    closed spec fn view(&self) -> Seq<(usize, V)> {
        self.entries@
    }
}

impl<V> Leaf<V> {
    /// Sorted, unique keys, and within capacity.
    pub open spec fn wf(self) -> bool {
        sorted_keys(self@) && self@.len() <= ARRAY_SIZE
    }

    pub fn new() -> (r: Leaf<V>)
        ensures
            r.wf(),
            r@ == Seq::<(usize, V)>::empty(),
    {
        Leaf { entries: Vec::new() }
    }

    pub fn len(&self) -> (r: usize)
        ensures
            r == self@.len(),
    {
        self.entries.len()
    }

    pub fn full(&self) -> (r: bool)
        ensures
            r == (self@.len() >= ARRAY_SIZE),
    {
        self.entries.len() >= ARRAY_SIZE
    }

    pub fn max_key(&self) -> (r: Option<usize>)
        ensures
            r == if self@.len() == 0 {
                None::<usize>
            } else {
                Some(self@.last().0)
            },
    {
        let n: usize = self.entries.len();
        if n == 0 {
            None
        } else {
            Some(self.entries[n - 1].0)
        }
    }

    pub fn key_at(&self, i: usize) -> (r: usize)
        requires
            i < self@.len(),
        ensures
            r == self@[i as int].0,
    {
        self.entries[i].0
    }

    pub fn value_at(&self, i: usize) -> (r: &V)
        requires
            i < self@.len(),
        ensures
            *r == self@[i as int].1,
    {
        &self.entries[i].1
    }

    /// Index of the first entry with key `>= key`: the bucket locator.
    pub fn min_ge(&self, key: usize) -> (r: Option<usize>)
        ensures
            match r {
                Some(i) => i < self@.len() && self@[i as int].0 >= key && forall|j: int|
                    0 <= j < i ==> (#[trigger] self@[j]).0 < key,
                None => forall|j: int| 0 <= j < self@.len() ==> (#[trigger] self@[j]).0 < key,
            },
    {
        let n: usize = self.entries.len();
        let mut i: usize = 0;
        while i < n
            invariant
                i <= n,
                n == self@.len(),
                forall|j: int| 0 <= j < i ==> (#[trigger] self@[j]).0 < key,
            decreases n - i,
        {
            if self.entries[i].0 >= key {
                return Some(i);
            }
            i = i + 1;
        }
        None
    }

    pub fn contains(&self, key: usize) -> (r: bool)
        requires
            self.wf(),
        ensures
            r == has_key(self@, key),
    {
        match self.min_ge(key) {
            Some(i) => {
                let k: usize = self.key_at(i);
                proof {
                    if k != key && has_key(self@, key) {
                        let w = choose|w: int|
                            0 <= w < self@.len() && (#[trigger] self@[w]).0 == key;
                        assert(w >= i);
                        if w > i {
                            assert(self@[i as int].0 < self@[w].0);
                        }
                    }
                    if k == key {
                        assert(has_key(self@, key));
                    }
                }
                k == key
            },
            None => {
                proof {
                    if has_key(self@, key) {
                        let w = choose|w: int|
                            0 <= w < self@.len() && (#[trigger] self@[w]).0 == key;
                    }
                }
                false
            },
        }
    }

    /// Swaps the value stored at `i`, leaving the keys untouched.
    pub fn replace_value(&mut self, i: usize, v: V) -> (r: V)
        requires
            i < old(self)@.len(),
        ensures
            r == old(self)@[i as int].1,
            final(self)@ == old(self)@.update(i as int, (old(self)@[i as int].0, v)),
            old(self).wf() ==> final(self).wf(),
    {
        let (k, old_v) = self.entries.remove(i);
        self.entries.insert(i, (k, v));
        proof {
            assert(final(self)@ =~= old(self)@.update(i as int, (old(self)@[i as int].0, v)));
        }
        old_v
    }

    /// Adds an entry. `None` means it went in; otherwise the pair comes back
    /// with `true` when the key was already present (the stored binding is
    /// kept) and `false` when the array is full.
    pub fn insert(&mut self, key: usize, value: V) -> (r: Option<((usize, V), bool)>)
        requires
            old(self).wf(),
        ensures
            final(self).wf(),
            has_key(old(self)@, key) ==> r == Some(((key, value), true)) && final(self)@ == old(self)@,
            !has_key(old(self)@, key) && old(self)@.len() >= ARRAY_SIZE ==> r == Some(
                ((key, value), false),
            ) && final(self)@ == old(self)@,
            !has_key(old(self)@, key) && old(self)@.len() < ARRAY_SIZE ==> r is None
                && final(self)@ == sorted_insert(old(self)@, key, value),
            (r is None) == (!has_key(old(self)@, key) && old(self)@.len() < ARRAY_SIZE),
    {
        let pos: usize;
        match self.min_ge(key) {
            Some(i) => {
                if self.entries[i].0 == key {
                    proof {
                        assert(has_key(self@, key));
                    }
                    return Some(((key, value), true));
                }
                pos = i;
            },
            None => {
                pos = self.entries.len();
            },
        }
        // key is absent: entries before pos are below key, the one at pos
        // (if any) is above it, and sortedness covers the rest
        proof {
            assert(!has_key(self@, key)) by {
                if has_key(self@, key) {
                    let w = choose|w: int|
                        0 <= w < self@.len() && (#[trigger] self@[w]).0 == key;
                    assert(w >= pos);
                    assert(pos < self@.len());
                    if w > pos {
                        assert(self@[pos as int].0 < self@[w].0);
                    }
                }
            }
        }
        if self.entries.len() >= ARRAY_SIZE {
            return Some(((key, value), false));
        }
        proof {
            lemma_num_lt_sorted(self@, key);
            assert(pos == num_lt(self@, key)) by {
                if pos < num_lt(self@, key) {
                    assert(self@[pos as int].0 < key);
                }
                if pos > num_lt(self@, key) {
                    assert(self@[num_lt(self@, key)].0 < key);
                }
            }
        }
        self.entries.insert(pos, (key, value));
        proof {
            let s = old(self)@;
            let t = final(self)@;
            let p = pos as int;
            assert(t == sorted_insert(s, key, value));
            lemma_num_lt_sorted(s, key);
            assert(sorted_keys(t)) by {
                assert(forall|i: int, j: int|
                    0 <= i < j < t.len() ==> (#[trigger] t[i]).0 < (#[trigger] t[j]).0) by {
                    assert(forall|i: int| 0 <= i < p ==> t[i] == s[i]);
                    assert(t[p] == (key, value));
                    assert(forall|i: int| p < i < t.len() ==> t[i] == s[i - 1]);
                }
            }
        }
        None
    }
}

impl<V: Copy> Leaf<V> {
    /// An entry-for-entry copy.
    pub fn duplicate(&self) -> (r: Leaf<V>)
        ensures
            r@ == self@,
    {
        let n: usize = self.entries.len();
        let mut out: Vec<(usize, V)> = Vec::new();
        let mut i: usize = 0;
        while i < n
            invariant
                i <= n,
                n == self@.len(),
                out@ == self@.subrange(0, i as int),
            decreases n - i,
        {
            out.push(self.entries[i]);
            proof {
                assert(out@ =~= self@.subrange(0, i + 1));
            }
            i = i + 1;
        }
        proof {
            assert(out@ =~= self@);
        }
        Leaf { entries: out }
    }

    /// Moves copies of the first half of the entries into `low` and of the
    /// rest into `high`, reporting the two counts. Entry-count-conserving and
    /// order-preserving; `low` receives the smaller half.
    pub fn distribute(&self, low: &mut Leaf<V>, high: &mut Leaf<V>) -> (r: (usize, usize))
        requires
            self.wf(),
            old(low)@.len() == 0,
            old(high)@.len() == 0,
        ensures
            r.0 == self@.len() / 2,
            r.1 == self@.len() - self@.len() / 2,
            final(low)@ == self@.subrange(0, self@.len() as int / 2),
            final(high)@ == self@.subrange(self@.len() as int / 2, self@.len() as int),
            final(low).wf(),
            final(high).wf(),
    {
        let n: usize = self.entries.len();
        let half: usize = n / 2;
        let mut i: usize = 0;
        while i < half
            invariant
                i <= half,
                half == self@.len() / 2,
                n == self@.len(),
                low@ == self@.subrange(0, i as int),
                high@.len() == 0,
            decreases half - i,
        {
            low.entries.push(self.entries[i]);
            proof {
                assert(low@ =~= self@.subrange(0, i + 1));
            }
            i = i + 1;
        }
        while i < n
            invariant
                half <= i <= n,
                half == self@.len() / 2,
                n == self@.len(),
                low@ == self@.subrange(0, half as int),
                high@ == self@.subrange(half as int, i as int),
            decreases n - i,
        {
            high.entries.push(self.entries[i]);
            proof {
                assert(high@ =~= self@.subrange(half as int, i + 1));
            }
            i = i + 1;
        }
        proof {
            assert(final(low).wf() && final(high).wf()) by {
                let lo = self@.subrange(0, half as int);
                let hi = self@.subrange(half as int, n as int);
                assert(forall|a: int, b: int|
                    0 <= a < b < lo.len() ==> (#[trigger] lo[a]).0 < (#[trigger] lo[b]).0);
                assert(forall|a: int, b: int|
                    0 <= a < b < hi.len() ==> (#[trigger] hi[a]).0 < (#[trigger] hi[b]).0);
            }
        }
        (half, n - half)
    }
}

} // verus!
