//! One level of the tree. A node is either an internal routing level whose
//! buckets point at child nodes, or a terminal leaf level whose buckets point
//! at data leaves. Search and insert recurse top-down; a full leaf triggers
//! the staged split protocol; overflow that cannot be absorbed travels back
//! up as `Error::Full`.

use vstd::prelude::*;

use crate::leaf::ARRAY_SIZE;
use crate::leaf::Leaf;
use crate::leaf::has_entry;
use crate::leaf::has_key;
use crate::leaf::lemma_num_lt_bounds;
use crate::leaf::lemma_num_lt_sorted;
use crate::leaf::lemma_sorted_entry_unique;
use crate::leaf::lemma_sorted_insert_props;
use crate::leaf::num_lt;
use crate::leaf::sorted_insert;
use crate::leaf::sorted_keys;

verus! {

/// The first (smaller) half of a full leaf's entries, as `distribute` moves
/// them.
pub open spec fn low_half(s: Seq<(usize, usize)>) -> Seq<(usize, usize)> {
    s.subrange(0, s.len() as int / 2)
}

/// The second half of a full leaf's entries.
pub open spec fn high_half(s: Seq<(usize, usize)>) -> Seq<(usize, usize)> {
    s.subrange(s.len() as int / 2, s.len() as int)
}

/// Where the overflow entry lands after distribution: the low leaf when the
/// high leaf ended up empty or the key fits under the low leaf's maximum.
pub open spec fn goes_low(s: Seq<(usize, usize)>, key: usize) -> bool {
    high_half(s).len() == 0 || (low_half(s).len() > 0 && low_half(s).last().0 >= key)
}

/// The low leaf produced by splitting `s` with overflow entry `(key, value)`.
pub open spec fn split_low(s: Seq<(usize, usize)>, key: usize, value: usize) -> Seq<
    (usize, usize),
> {
    if goes_low(s, key) {
        sorted_insert(low_half(s), key, value)
    } else {
        low_half(s)
    }
}

/// The high leaf produced by splitting `s` with overflow entry `(key, value)`.
pub open spec fn split_high(s: Seq<(usize, usize)>, key: usize, value: usize) -> Seq<
    (usize, usize),
> {
    if goes_low(s, key) {
        high_half(s)
    } else {
        sorted_insert(high_half(s), key, value)
    }
}

/// What a split produces: together the two destination leaves hold the
/// original entries plus the overflow entry, both are sorted and nonempty,
/// and their key ranges are disjoint, every low key below every high key.
pub proof fn lemma_split_parts(s: Seq<(usize, usize)>, key: usize, value: usize)
    requires
        sorted_keys(s),
        !has_key(s, key),
        s.len() >= 2,
    ensures
        split_low(s, key, value).len() + split_high(s, key, value).len() == s.len() + 1,
        split_low(s, key, value).len() > 0,
        split_high(s, key, value).len() > 0,
        sorted_keys(split_low(s, key, value)),
        sorted_keys(split_high(s, key, value)),
        forall|a: int, b: int|
            0 <= a < split_low(s, key, value).len() && 0 <= b < split_high(s, key, value).len()
                ==> (#[trigger] split_low(s, key, value)[a]).0 < (#[trigger] split_high(
                s,
                key,
                value,
            )[b]).0,
        forall|k: usize, v: usize|
            (has_entry(split_low(s, key, value), k, v) || has_entry(split_high(s, key, value), k, v))
                == (has_entry(s, k, v) || (k == key && v == value)),
        split_low(s, key, value).last().0 == low_half(s).last().0,
{
    let lo = low_half(s);
    let hi = high_half(s);
    let h = s.len() as int / 2;
    assert(lo.len() == h && hi.len() == s.len() - h);
    assert(forall|j: int| 0 <= j < lo.len() ==> lo[j] == s[j]);
    assert(forall|j: int| 0 <= j < hi.len() ==> hi[j] == s[j + h]);
    assert(sorted_keys(lo));
    assert(sorted_keys(hi));
    assert(!has_key(lo, key)) by {
        if has_key(lo, key) {
            let j = choose|j: int| 0 <= j < lo.len() && (#[trigger] lo[j]).0 == key;
            assert(s[j].0 == key);
            assert(has_key(s, key));
        }
    }
    assert(!has_key(hi, key)) by {
        if has_key(hi, key) {
            let j = choose|j: int| 0 <= j < hi.len() && (#[trigger] hi[j]).0 == key;
            assert(s[j + h].0 == key);
            assert(has_key(s, key));
        }
    }
    assert forall|k: usize, v: usize|
        (has_entry(lo, k, v) || has_entry(hi, k, v)) == has_entry(s, k, v) by {
        if has_entry(lo, k, v) {
            let j = choose|j: int| 0 <= j < lo.len() && (#[trigger] lo[j]).0 == k && lo[j].1 == v;
            assert(s[j].0 == k && s[j].1 == v);
            assert(has_entry(s, k, v));
        }
        if has_entry(hi, k, v) {
            let j = choose|j: int| 0 <= j < hi.len() && (#[trigger] hi[j]).0 == k && hi[j].1 == v;
            assert(s[j + h].0 == k && s[j + h].1 == v);
            assert(has_entry(s, k, v));
        }
        if has_entry(s, k, v) {
            let j = choose|j: int| 0 <= j < s.len() && (#[trigger] s[j]).0 == k && s[j].1 == v;
            if j < h {
                assert(lo[j].0 == k && lo[j].1 == v);
                assert(has_entry(lo, k, v));
            } else {
                assert(hi[j - h].0 == k && hi[j - h].1 == v);
                assert(has_entry(hi, k, v));
            }
        }
    }
    if goes_low(s, key) {
        lemma_sorted_insert_props(lo, key, value);
        assert(key < lo.last().0) by {
            if key == lo.last().0 {
                assert(has_key(lo, key));
            }
        }
        assert(split_low(s, key, value).last() == lo.last());
        // every key placed in the low leaf stays below every high key
        assert forall|a: int, b: int|
            0 <= a < split_low(s, key, value).len() && 0 <= b < split_high(s, key, value).len()
                implies (#[trigger] split_low(s, key, value)[a]).0 < (#[trigger] split_high(
            s,
            key,
            value,
        )[b]).0 by {
            let sl = split_low(s, key, value);
            assert(sorted_keys(sl));
            assert(sl[a].0 <= sl.last().0) by {
                if a < sl.len() - 1 {
                    assert(sl[a].0 < sl[sl.len() - 1].0);
                }
            }
            assert(sl.last().0 == lo.last().0);
            assert(lo.last().0 == s[h - 1].0);
            assert(s[h - 1].0 < s[b + h].0);
        }
    } else {
        lemma_sorted_insert_props(hi, key, value);
        assert(lo.len() > 0 && lo.last().0 < key);
        assert forall|a: int, b: int|
            0 <= a < split_low(s, key, value).len() && 0 <= b < split_high(s, key, value).len()
                implies (#[trigger] split_low(s, key, value)[a]).0 < (#[trigger] split_high(
            s,
            key,
            value,
        )[b]).0 by {
            let sh = split_high(s, key, value);
            assert(lo[a].0 <= lo.last().0) by {
                if a < lo.len() - 1 {
                    assert(lo[a].0 < lo[lo.len() - 1].0);
                }
            }
            assert(has_entry(sh, sh[b].0, sh[b].1));
            if has_entry(hi, sh[b].0, sh[b].1) {
                let j = choose|j: int|
                    0 <= j < hi.len() && (#[trigger] hi[j]).0 == sh[b].0 && hi[j].1 == sh[b].1;
                assert(s[h - 1].0 < s[j + h].0);
            } else {
                assert(sh[b].0 == key);
            }
        }
    }
}

/// The three-way signal that drives splitting and retries.
pub enum Error {
    /// The key is already present: the offered pair comes back and the stored
    /// binding stays canonical.
    Duplicated((usize, usize)),
    /// The addressed container has no room: the pair comes back with the
    /// upper-bound key of the overflowing slot (`None` for the unbounded
    /// slot), for the level above to make room.
    Full((usize, usize), Option<usize>),
    /// A structural race was detected (a split already staged here): the pair
    /// comes back and the whole insert restarts from the top.
    Retry((usize, usize)),
}

/// The variant-specific body of a terminal (floor 0) node: buckets of data
/// leaves, a catch-all tail leaf, and the two split-staging slots.
pub struct LeafBody {
    bounded_children: Leaf<Leaf<usize>>,
    unbounded_child: Option<Leaf<usize>>,
    reserved_low_key: Option<Leaf<usize>>,
    reserved_high_key: Option<Leaf<usize>>,
}

/// The variant-specific body of a routing (floor >= 1) node: buckets of child
/// nodes, a catch-all tail node, and the two split-staging slots.
pub struct InternalBody {
    bounded_children: Vec<(usize, Node)>,
    unbounded_child: Option<Box<Node>>,
    reserved_low_key: Option<Box<Node>>,
    reserved_high_key: Option<Box<Node>>,
}

pub enum NodeType {
    InternalNode(InternalBody),
    LeafNode(LeafBody),
}

/// One level of the tree. `floor` is the height above the data level; floor 0
/// is a leaf node.
pub struct Node {
    entry: NodeType,
    floor: usize,
}

impl LeafBody {
    pub closed spec fn buckets(self) -> Seq<(usize, Leaf<usize>)> {
        self.bounded_children@
    }

    pub closed spec fn unbounded(self) -> Option<Leaf<usize>> {
        self.unbounded_child
    }

    pub closed spec fn staged_low(self) -> Option<Leaf<usize>> {
        self.reserved_low_key
    }

    pub closed spec fn staged_high(self) -> Option<Leaf<usize>> {
        self.reserved_high_key
    }

    /// Every key stored under bucket `i` lies in the half-open range
    /// `(key of bucket i-1, key of bucket i]`.
    pub open spec fn bucket_in_range(bs: Seq<(usize, Leaf<usize>)>, i: int) -> bool {
        forall|j: int|
            0 <= j < bs[i].1@.len() ==> (#[trigger] bs[i].1@[j]).0 <= bs[i].0 && (i > 0
                ==> bs[i].1@[j].0 > bs[i - 1].0)
    }

    pub open spec fn wf(self) -> bool {
        &&& sorted_keys(self.buckets())
        &&& self.buckets().len() <= ARRAY_SIZE
        &&& forall|i: int|
            0 <= i < self.buckets().len() ==> (#[trigger] self.buckets()[i]).1.wf()
                && self.buckets()[i].1@.len() > 0 && Self::bucket_in_range(self.buckets(), i)
        &&& match self.unbounded() {
            Some(u) => u.wf() && u@.len() > 0 && self.buckets().len() == ARRAY_SIZE && forall|
                j: int,
            |
                0 <= j < u@.len() ==> (#[trigger] u@[j]).0 > self.buckets().last().0,
            None => true,
        }
        &&& match self.staged_low() {
            Some(l) => l.wf() && l@.len() > 0,
            None => true,
        }
        &&& match self.staged_high() {
            Some(l) => l.wf() && l@.len() > 0,
            None => true,
        }
    }

    /// The pair `(k, v)` is stored in a linked leaf (staged leaves are not
    /// reachable by search and do not count).
    pub open spec fn contains_pair(self, k: usize, v: usize) -> bool {
        (exists|i: int|
            0 <= i < self.buckets().len() && has_entry((#[trigger] self.buckets()[i]).1@, k, v))
            || (match self.unbounded() {
            Some(u) => has_entry(u@, k, v),
            None => false,
        })
    }

    pub open spec fn contains_key(self, k: usize) -> bool {
        exists|v: usize| self.contains_pair(k, v)
    }

    /// The bucket an insert of `key` is routed to: the first one whose key is
    /// `>= key`, or `None` when no bucket covers it.
    pub open spec fn route(self, key: usize) -> Option<int> {
        if num_lt(self.buckets(), key) < self.buckets().len() {
            Some(num_lt(self.buckets(), key))
        } else {
            None
        }
    }

    /// The routed container already holds `key`.
    pub open spec fn is_dup(self, key: usize) -> bool {
        match self.route(key) {
            Some(i) => has_key(self.buckets()[i].1@, key),
            None => self.buckets().len() >= ARRAY_SIZE && match self.unbounded() {
                Some(u) => has_key(u@, key),
                None => false,
            },
        }
    }

    /// The routed container exists, lacks `key`, and has no room: inserting
    /// `key` means splitting.
    pub open spec fn routed_full(self, key: usize) -> bool {
        !self.is_dup(key) && match self.route(key) {
            Some(i) => self.buckets()[i].1@.len() >= ARRAY_SIZE,
            None => self.buckets().len() >= ARRAY_SIZE && match self.unbounded() {
                Some(u) => u@.len() >= ARRAY_SIZE,
                None => false,
            },
        }
    }

    /// A split is already staged on this node: any further split attempt
    /// backs off with `Retry`.
    pub open spec fn blocked(self) -> bool {
        self.staged_low() is Some || self.staged_high() is Some
    }

    /// Post-state of an insert absorbed without a split.
    pub open spec fn plain_ok_post(pre: LeafBody, post: LeafBody, key: usize, value: usize) -> bool {
        &&& post.staged_low() == pre.staged_low()
        &&& post.staged_high() == pre.staged_high()
        &&& match pre.route(key) {
            Some(i) => {
                &&& post.buckets().len() == pre.buckets().len()
                &&& (forall|j: int|
                    0 <= j < pre.buckets().len() && j != i ==> post.buckets()[j] == pre.buckets()[j])
                &&& post.buckets()[i].0 == pre.buckets()[i].0
                &&& post.buckets()[i].1@ == sorted_insert(pre.buckets()[i].1@, key, value)
                &&& post.unbounded() == pre.unbounded()
            },
            None => if pre.buckets().len() < ARRAY_SIZE {
                &&& post.buckets().len() == pre.buckets().len() + 1
                &&& (forall|j: int|
                    0 <= j < pre.buckets().len() ==> post.buckets()[j] == pre.buckets()[j])
                &&& post.buckets().last().0 == key
                &&& post.buckets().last().1@ == seq![(key, value)]
                &&& post.unbounded() == pre.unbounded()
            } else {
                &&& post.buckets() == pre.buckets()
                &&& (post.unbounded() matches Some(u) && u@ == (match pre.unbounded() {
                    Some(u0) => sorted_insert(u0@, key, value),
                    None => seq![(key, value)],
                }))
            },
        }
    }

    /// Post-state of a split that could not be re-linked at this level: both
    /// staging slots hold the distributed halves and the linked structure is
    /// untouched.
    pub open spec fn split_staged_post(
        pre: LeafBody,
        post: LeafBody,
        src: Seq<(usize, usize)>,
        key: usize,
        value: usize,
    ) -> bool {
        &&& post.buckets() == pre.buckets()
        &&& post.unbounded() == pre.unbounded()
        &&& (post.staged_low() matches Some(l) && l@ == split_low(src, key, value))
        &&& (post.staged_high() matches Some(h) && h@ == split_high(src, key, value))
    }

    /// Post-state of a successful split of the leaf under bucket `i`: the low
    /// leaf registered as a new bucket keyed by its own maximum, the high
    /// leaf replacing the full one under the old key, and both staging slots
    /// released again -- the clearing doubles as the unlock.
    pub open spec fn split_ok_post(
        pre: LeafBody,
        post: LeafBody,
        i: int,
        key: usize,
        value: usize,
    ) -> bool {
        let src = pre.buckets()[i].1@;
        let lo = split_low(src, key, value);
        let hi = split_high(src, key, value);
        &&& post.buckets().len() == pre.buckets().len() + 1
        &&& (forall|j: int| 0 <= j < i ==> post.buckets()[j] == pre.buckets()[j])
        &&& post.buckets()[i].0 == lo.last().0
        &&& post.buckets()[i].1@ == lo
        &&& post.buckets()[i + 1].0 == pre.buckets()[i].0
        &&& post.buckets()[i + 1].1@ == hi
        &&& (forall|j: int|
            i + 1 < j < post.buckets().len() ==> post.buckets()[j] == pre.buckets()[j - 1])
        &&& post.unbounded() == pre.unbounded()
        &&& post.staged_low() is None
        &&& post.staged_high() is None
    }

    /// The observable leaf-level state of `a` and `b` agree entry for entry.
    pub open spec fn state_like(a: LeafBody, b: LeafBody) -> bool {
        &&& a.buckets().len() == b.buckets().len()
        &&& (forall|i: int|
            0 <= i < a.buckets().len() ==> (#[trigger] a.buckets()[i]).0 == b.buckets()[i].0
                && a.buckets()[i].1@ == b.buckets()[i].1@)
        &&& opt_leaf_like(a.unbounded(), b.unbounded())
        &&& opt_leaf_like(a.staged_low(), b.staged_low())
        &&& opt_leaf_like(a.staged_high(), b.staged_high())
    }

    /// Nothing stored under `a` changed relative to `b`.
    pub open spec fn same_pairs(a: LeafBody, b: LeafBody) -> bool {
        forall|k: usize, v: usize| b.contains_pair(k, v) == a.contains_pair(k, v)
    }

    /// Exactly `(key, value)` was added going from `a` to `b`.
    pub open spec fn inserted_exactly(a: LeafBody, b: LeafBody, key: usize, value: usize) -> bool {
        forall|k: usize, v: usize|
            b.contains_pair(k, v) == (a.contains_pair(k, v) || (k == key && v == value))
    }
}

impl LeafBody {
    /// The staged split protocol for a full data leaf. Claims the two
    /// staging slots (backing off with `Retry` when either is taken),
    /// distributes the full leaf's entries into two fresh leaves, places the
    /// overflow entry, and publishes: a bounded slot is re-linked and both
    /// staging slots released when the bucket index has room, otherwise the
    /// halves stay staged and `Full` travels upward with the overflow slot's
    /// upper bound.
    #[verifier::rlimit(100)]
    pub fn split_leaf(&mut self, entry: (usize, usize), full_bucket: Option<usize>) -> (r: Result<
        (),
        Error,
    >)
        requires
            old(self).wf(),
            match full_bucket {
                Some(i) => old(self).route(entry.0) == Some(i as int) && old(self).buckets()[
                    i as int
                ].1@.len() >= ARRAY_SIZE && !has_key(old(self).buckets()[i as int].1@, entry.0),
                None => old(self).route(entry.0) is None && old(self).buckets().len() >= ARRAY_SIZE
                    && (match old(self).unbounded() {
                    Some(u) => u@.len() >= ARRAY_SIZE && !has_key(u@, entry.0),
                    None => false,
                }),
            },
        ensures
            final(self).wf(),
            old(self).blocked() ==> r == Err::<(), Error>(Error::Retry(entry)) && *final(self) == *old(self),
            !old(self).blocked() ==> (match full_bucket {
                Some(i) => if old(self).buckets().len() < ARRAY_SIZE {
                    r == Ok::<(), Error>(()) && LeafBody::split_ok_post(
                        *old(self),
                        *final(self),
                        i as int,
                        entry.0,
                        entry.1,
                    )
                } else {
                    r == Err::<(), Error>(Error::Full(entry, Some(old(self).buckets()[i as int].0)))
                        && LeafBody::split_staged_post(
                        *old(self),
                        *final(self),
                        old(self).buckets()[i as int].1@,
                        entry.0,
                        entry.1,
                    )
                },
                None => r == Err::<(), Error>(Error::Full(entry, None::<usize>)) && LeafBody::split_staged_post(
                    *old(self),
                    *final(self),
                    old(self).unbounded().unwrap()@,
                    entry.0,
                    entry.1,
                ),
            }),
            r == Ok::<(), Error>(()) ==> LeafBody::inserted_exactly(
                *old(self),
                *final(self),
                entry.0,
                entry.1,
            ),
            !(r is Ok) ==> LeafBody::same_pairs(*old(self), *final(self)),
    {
        if self.reserved_low_key.is_some() || self.reserved_high_key.is_some() {
            // a split is already staged on this node: back off and let the
            // caller replay the whole insert from the top
            return Err(Error::Retry(entry));
        }
        let ghost src: Seq<(usize, usize)> = match full_bucket {
            Some(i) => old(self).buckets()[i as int].1@,
            None => old(self).unbounded().unwrap()@,
        };
        proof {
            if full_bucket is Some {
                let i = full_bucket.unwrap() as int;
                assert(old(self).buckets()[i].1.wf());
            }
            assert(sorted_keys(src) && src.len() == ARRAY_SIZE && !has_key(src, entry.0));
            lemma_split_parts(src, entry.0, entry.1);
        }
        let mut low: Leaf<usize> = Leaf::new();
        let mut high: Leaf<usize> = Leaf::new();
        let distributed: (usize, usize);
        match full_bucket {
            Some(i) => {
                distributed = self.bounded_children.value_at(i).distribute(&mut low, &mut high);
            },
            None => {
                match &self.unbounded_child {
                    Some(u) => {
                        distributed = u.distribute(&mut low, &mut high);
                    },
                    None => {
                        proof {
                            assert(false);
                        }
                        distributed = (0, 0);
                    },
                }
            },
        }
        proof {
            assert(low@ == low_half(src));
            assert(high@ == high_half(src));
            assert(!has_key(low@, entry.0)) by {
                if has_key(low@, entry.0) {
                    let w = choose|w: int|
                        0 <= w < low@.len() && (#[trigger] low@[w]).0 == entry.0;
                    assert(src[w] == low@[w]);
                    assert(has_key(src, entry.0));
                }
            }
            assert(!has_key(high@, entry.0)) by {
                if has_key(high@, entry.0) {
                    let w = choose|w: int|
                        0 <= w < high@.len() && (#[trigger] high@[w]).0 == entry.0;
                    assert(src[w + src.len() / 2] == high@[w]);
                    assert(has_key(src, entry.0));
                }
            }
        }
        // place the overflow entry into whichever new leaf covers its key:
        // the low leaf when the high leaf is empty or the key fits under the
        // low leaf's maximum, the high leaf otherwise
        let place_low: bool = distributed.1 == 0 || low.min_ge(entry.0).is_some();
        proof {
            assert(place_low == goes_low(src, entry.0)) by {
                if low@.len() > 0 && low@.last().0 >= entry.0 {
                    assert(exists|j: int|
                        0 <= j < low@.len() && (#[trigger] low@[j]).0 >= entry.0);
                }
            }
        }
        if place_low {
            let _ = low.insert(entry.0, entry.1);
        } else {
            let _ = high.insert(entry.0, entry.1);
        }
        proof {
            assert(low@ == split_low(src, entry.0, entry.1));
            assert(high@ == split_high(src, entry.0, entry.1));
        }
        match full_bucket {
            None => {
                // unbounded-slot overflow: no routing entry can be added at
                // this level, so the halves stay staged and the parent must
                // make room
                self.reserved_low_key = Some(low);
                self.reserved_high_key = Some(high);
                proof {
                    lemma_split_staged(*old(self), *self, src, entry.0, entry.1);
                }
                Err(Error::Full(entry, None))
            },
            Some(i) => {
                let bucket_key: usize = self.bounded_children.key_at(i);
                if distributed.1 == 0 {
                    // degenerate split: everything fits the low leaf, which
                    // simply replaces the full one (unreachable for a leaf
                    // that was full when the split began)
                    let _ = self.bounded_children.replace_value(i, low);
                    return Ok(());
                }
                let mk: usize = match low.max_key() {
                    Some(k) => k,
                    None => {
                        proof {
                            assert(false);
                        }
                        0
                    },
                };
                proof {
                    let bs = old(self).buckets();
                    let h = src.len() as int / 2;
                    lemma_num_lt_sorted(bs, entry.0);
                    assert(mk == src[h - 1].0) by {
                        assert(low@.last().0 == low_half(src).last().0);
                    }
                    assert(mk < bs[i as int].0) by {
                        assert(src[h - 1].0 < src[src.len() - 1].0);
                        assert(src[src.len() - 1].0 <= bs[i as int].0) by {
                            assert(LeafBody::bucket_in_range(bs, i as int));
                        }
                    }
                    assert(forall|l: int| 0 <= l < i ==> (#[trigger] bs[l]).0 < mk) by {
                        assert(LeafBody::bucket_in_range(bs, i as int));
                        assert(i > 0 ==> mk > bs[i as int - 1].0);
                        assert(forall|l: int|
                            0 <= l < i - 1 ==> (#[trigger] bs[l]).0 < bs[i as int - 1].0);
                    }
                    assert(forall|l: int| i <= l < bs.len() ==> (#[trigger] bs[l]).0 > mk) by {
                        assert(forall|l: int|
                            i < l < bs.len() ==> (#[trigger] bs[l]).0 > bs[i as int].0);
                    }
                    lemma_num_lt_sorted(bs, mk);
                    assert(num_lt(bs, mk) == i) by {
                        if num_lt(bs, mk) < i {
                            assert(bs[num_lt(bs, mk)].0 >= mk);
                        }
                        if num_lt(bs, mk) > i {
                            assert(bs[i as int].0 < mk);
                        }
                    }
                    assert(!has_key(bs, mk)) by {
                        if has_key(bs, mk) {
                            let w = choose|w: int|
                                0 <= w < bs.len() && (#[trigger] bs[w]).0 == mk;
                        }
                    }
                }
                let ghost lo = low@;
                let ghost hi = high@;
                match self.bounded_children.insert(mk, low) {
                    Some((pair, _)) => {
                        // the bucket index itself has no room: the halves
                        // stay staged and the caller must split this node's
                        // own routing index before retrying
                        self.reserved_low_key = Some(pair.1);
                        self.reserved_high_key = Some(high);
                        proof {
                            lemma_split_staged(*old(self), *self, src, entry.0, entry.1);
                        }
                        Err(Error::Full(entry, Some(bucket_key)))
                    },
                    None => {
                        // the full leaf moved one slot up; hand it the high
                        // half under the old upper bound, and keep the claim
                        // on the high slot
                        proof {
                            assert(self.buckets() == old(self).buckets().insert(
                                i as int,
                                (mk, self.buckets()[i as int].1),
                            ));
                        }
                        let _ = self.bounded_children.replace_value(i + 1, high);
                        proof {
                            let bs = old(self).buckets();
                            let ps = self.buckets();
                            assert(forall|j: int| 0 <= j < i ==> ps[j] == bs[j]);
                            assert(ps[i as int].0 == mk && ps[i as int].1@ == lo);
                            assert(ps[i as int + 1].0 == bs[i as int].0 && ps[i as int + 1].1@
                                == hi);
                            assert(forall|j: int|
                                i + 1 < j < ps.len() ==> ps[j] == bs[j - 1]);
                            assert(LeafBody::split_ok_post(
                                *old(self),
                                *self,
                                i as int,
                                entry.0,
                                entry.1,
                            ));
                            lemma_split_ok(*old(self), *self, i as int, entry.0, entry.1);
                        }
                        Ok(())
                    },
                }
            },
        }
    }
}

impl LeafBody {
    /// The complete outcome of a terminal-level insert: which of the four
    /// protocol cases applied, the exact result value, and the exact
    /// post-state for each.
    pub open spec fn leaf_insert_post(
        pre: LeafBody,
        post: LeafBody,
        key: usize,
        value: usize,
        r: Result<(), Error>,
    ) -> bool {
        &&& (pre.is_dup(key) ==> r == Err::<(), Error>(Error::Duplicated((key, value)))
            && LeafBody::state_like(pre, post))
        &&& (pre.routed_full(key) && pre.blocked() ==> r == Err::<(), Error>(Error::Retry(
            (key, value),
        )) && LeafBody::state_like(pre, post))
        &&& (pre.routed_full(key) && !pre.blocked() ==> (match pre.route(key) {
            Some(i) => if pre.buckets().len() < ARRAY_SIZE {
                r == Ok::<(), Error>(()) && LeafBody::split_ok_post(pre, post, i, key, value)
            } else {
                r == Err::<(), Error>(Error::Full((key, value), Some(pre.buckets()[i].0)))
                    && LeafBody::split_staged_post(pre, post, pre.buckets()[i].1@, key, value)
            },
            None => r == Err::<(), Error>(Error::Full((key, value), None::<usize>))
                && LeafBody::split_staged_post(pre, post, pre.unbounded().unwrap()@, key, value),
        }))
        &&& (!pre.is_dup(key) && !pre.routed_full(key) ==> r == Ok::<(), Error>(())
            && LeafBody::plain_ok_post(pre, post, key, value))
    }
}

impl LeafBody {
    /// Inserts at the terminal level. Routes the key to its bucket, lazily
    /// growing a singleton bucket (or the unbounded tail) for a key no bucket
    /// covers, and hands a full leaf to the split protocol.
    pub fn insert(&mut self, key: usize, value: usize) -> (r: Result<(), Error>)
        requires
            old(self).wf(),
        ensures
            final(self).wf(),
            LeafBody::leaf_insert_post(*old(self), *final(self), key, value, r),
            r == Ok::<(), Error>(()) ==> LeafBody::inserted_exactly(
                *old(self),
                *final(self),
                key,
                value,
            ),
            !(r is Ok) ==> LeafBody::same_pairs(*old(self), *final(self)),
    {
        proof {
            lemma_num_lt_sorted(old(self).buckets(), key);
        }
        match self.bounded_children.min_ge(key) {
            Some(i) => {
                proof {
                    let bs = old(self).buckets();
                    assert(i as int == num_lt(bs, key)) by {
                        if (i as int) < num_lt(bs, key) {
                            assert(bs[i as int].0 < key);
                        }
                        if (i as int) > num_lt(bs, key) {
                            assert(bs[num_lt(bs, key)].0 >= key);
                        }
                    }
                    assert(old(self).route(key) == Some(i as int));
                    assert(bs[i as int].1.wf());
                }
                let has: bool = self.bounded_children.value_at(i).contains(key);
                if has {
                    proof {
                        assert(LeafBody::state_like(*old(self), *self));
                        lemma_state_like(*old(self), *self);
                    }
                    return Err(Error::Duplicated((key, value)));
                }
                let is_full: bool = self.bounded_children.value_at(i).full();
                if is_full {
                    return self.split_leaf((key, value), Some(i));
                }
                // room in the routed leaf: a plain sorted insert
                let mut child: Leaf<usize> = self.bounded_children.replace_value(i, Leaf::new());
                let res = child.insert(key, value);
                proof {
                    assert(res is None);
                }
                let _ = self.bounded_children.replace_value(i, child);
                proof {
                    assert(LeafBody::plain_ok_post(*old(self), *self, key, value)) by {
                        assert(forall|j: int|
                            0 <= j < old(self).buckets().len() && j != i as int
                                ==> self.buckets()[j] == old(self).buckets()[j]);
                    }
                    lemma_plain_ok(*old(self), *self, key, value);
                }
                Ok(())
            },
            None => {
                proof {
                    let bs = old(self).buckets();
                    assert(num_lt(bs, key) == bs.len()) by {
                        if num_lt(bs, key) < bs.len() {
                            assert(bs[num_lt(bs, key)].0 >= key);
                        }
                    }
                    assert(old(self).route(key) is None);
                }
                if !self.bounded_children.full() {
                    // a never-seen key past every bucket: grant it a
                    // singleton bucket of its own
                    let mut fresh: Leaf<usize> = Leaf::new();
                    let _ = fresh.insert(key, value);
                    proof {
                        assert(fresh@ =~= seq![(key, value)]) by {
                            assert(num_lt(Seq::<(usize, usize)>::empty(), key) == 0);
                        }
                    }
                    let res = self.bounded_children.insert(key, fresh);
                    proof {
                        assert(res is None);
                        assert(self.buckets() == sorted_insert(old(self).buckets(), key, fresh));
                        assert(self.buckets() =~= old(self).buckets().push((key, fresh)));
                        assert(LeafBody::plain_ok_post(*old(self), *self, key, value));
                        lemma_plain_ok(*old(self), *self, key, value);
                    }
                    Ok(())
                } else {
                    let u_exists: bool = self.unbounded_child.is_some();
                    if !u_exists {
                        // grow the unbounded tail lazily
                        let mut fresh: Leaf<usize> = Leaf::new();
                        let _ = fresh.insert(key, value);
                        proof {
                            assert(fresh@ =~= seq![(key, value)]) by {
                                assert(num_lt(Seq::<(usize, usize)>::empty(), key) == 0);
                            }
                        }
                        self.unbounded_child = Some(fresh);
                        proof {
                            assert(LeafBody::plain_ok_post(*old(self), *self, key, value));
                            lemma_plain_ok(*old(self), *self, key, value);
                        }
                        return Ok(());
                    }
                    let u_has: bool;
                    let u_full: bool;
                    match &self.unbounded_child {
                        Some(u) => {
                            u_has = u.contains(key);
                            u_full = u.full();
                        },
                        None => {
                            proof {
                                assert(false);
                            }
                            u_has = false;
                            u_full = false;
                        },
                    }
                    if u_has {
                        proof {
                            assert(LeafBody::state_like(*old(self), *self));
                            lemma_state_like(*old(self), *self);
                        }
                        return Err(Error::Duplicated((key, value)));
                    }
                    if u_full {
                        return self.split_leaf((key, value), None);
                    }
                    match self.unbounded_child.take() {
                        Some(mut u) => {
                            let res = u.insert(key, value);
                            proof {
                                assert(res is None);
                            }
                            self.unbounded_child = Some(u);
                            proof {
                                assert(LeafBody::plain_ok_post(*old(self), *self, key, value));
                                lemma_plain_ok(*old(self), *self, key, value);
                            }
                            Ok(())
                        },
                        None => {
                            proof {
                                assert(false);
                            }
                            Ok(())
                        },
                    }
                }
            },
        }
    }
}

pub open spec fn opt_leaf_like(a: Option<Leaf<usize>>, b: Option<Leaf<usize>>) -> bool {
    match (a, b) {
        (None, None) => true,
        (Some(x), Some(y)) => x@ == y@,
        _ => false,
    }
}

/// Well-formedness pins routing down: the routed container is the only one
/// that can hold `key`, so a duplicate report and key presence coincide.
pub proof fn lemma_dup_iff_contains(b: LeafBody, key: usize)
    requires
        b.wf(),
    ensures
        b.is_dup(key) == b.contains_key(key),
{
    let bs = b.buckets();
    lemma_num_lt_sorted(bs, key);
    if b.is_dup(key) {
        match b.route(key) {
            Some(i) => {
                let j = choose|j: int|
                    0 <= j < bs[i].1@.len() && (#[trigger] bs[i].1@[j]).0 == key;
                let v = bs[i].1@[j].1;
                assert(has_entry(bs[i].1@, key, v));
                assert(b.contains_pair(key, v));
            },
            None => {
                let u = b.unbounded().unwrap();
                let j = choose|j: int| 0 <= j < u@.len() && (#[trigger] u@[j]).0 == key;
                let v = u@[j].1;
                assert(has_entry(u@, key, v));
                assert(b.contains_pair(key, v));
            },
        }
    }
    if b.contains_key(key) {
        let v = choose|v: usize| b.contains_pair(key, v);
        if exists|i: int| 0 <= i < bs.len() && has_entry((#[trigger] bs[i]).1@, key, v) {
            let i = choose|i: int| 0 <= i < bs.len() && has_entry((#[trigger] bs[i]).1@, key, v);
            // key lies in bucket i's range, so routing lands exactly there
            assert(key <= bs[i].0 && (i > 0 ==> key > bs[i - 1].0)) by {
                let j = choose|j: int|
                    0 <= j < bs[i].1@.len() && (#[trigger] bs[i].1@[j]).0 == key && bs[i].1@[j].1
                        == v;
                assert(LeafBody::bucket_in_range(bs, i));
            }
            assert(num_lt(bs, key) == i) by {
                assert(forall|l: int| 0 <= l < i ==> (#[trigger] bs[l]).0 < key) by {
                    assert(forall|l: int| 0 <= l < i - 1 ==> (#[trigger] bs[l]).0 < bs[i - 1].0);
                }
                assert(forall|l: int| i <= l < bs.len() ==> (#[trigger] bs[l]).0 >= key) by {
                    assert(forall|l: int| i < l < bs.len() ==> (#[trigger] bs[l]).0 > bs[i].0);
                }
                if num_lt(bs, key) < i {
                    assert(bs[num_lt(bs, key)].0 >= key);
                }
                if num_lt(bs, key) > i {
                    assert(bs[i].0 < key);
                }
            }
            assert(b.route(key) == Some(i));
            assert(has_key(bs[i].1@, key)) by {
                let j = choose|j: int|
                    0 <= j < bs[i].1@.len() && (#[trigger] bs[i].1@[j]).0 == key && bs[i].1@[j].1
                        == v;
            }
        } else {
            let u = b.unbounded().unwrap();
            assert(has_entry(u@, key, v));
            assert(bs.len() == ARRAY_SIZE);
            assert(key > bs.last().0) by {
                let j = choose|j: int|
                    0 <= j < u@.len() && (#[trigger] u@[j]).0 == key && u@[j].1 == v;
            }
            assert(num_lt(bs, key) == bs.len()) by {
                assert(forall|l: int| 0 <= l < bs.len() ==> (#[trigger] bs[l]).0 < key) by {
                    assert(forall|l: int|
                        0 <= l < bs.len() - 1 ==> (#[trigger] bs[l]).0 < bs[bs.len() - 1].0);
                }
                if num_lt(bs, key) < bs.len() {
                    assert(bs[num_lt(bs, key)].0 >= key);
                }
            }
            assert(b.route(key) is None);
            assert(has_key(u@, key)) by {
                let j = choose|j: int|
                    0 <= j < u@.len() && (#[trigger] u@[j]).0 == key && u@[j].1 == v;
            }
        }
    }
}

/// States that agree entry for entry store the same pairs and are equally
/// well-formed.
pub proof fn lemma_state_like(a: LeafBody, b: LeafBody)
    requires
        LeafBody::state_like(a, b),
    ensures
        LeafBody::same_pairs(a, b),
        a.wf() ==> b.wf(),
{
    assert forall|k: usize, v: usize| b.contains_pair(k, v) == a.contains_pair(k, v) by {
        if a.contains_pair(k, v) {
            if exists|i: int| 0 <= i < a.buckets().len() && has_entry((#[trigger] a.buckets()[i]).1@, k, v) {
                let i = choose|i: int|
                    0 <= i < a.buckets().len() && has_entry((#[trigger] a.buckets()[i]).1@, k, v);
                assert(has_entry(b.buckets()[i].1@, k, v));
            }
        }
        if b.contains_pair(k, v) {
            if exists|i: int| 0 <= i < b.buckets().len() && has_entry((#[trigger] b.buckets()[i]).1@, k, v) {
                let i = choose|i: int|
                    0 <= i < b.buckets().len() && has_entry((#[trigger] b.buckets()[i]).1@, k, v);
                assert(has_entry(a.buckets()[i].1@, k, v));
            }
        }
    }
    if a.wf() {
        assert(sorted_keys(b.buckets())) by {
            assert forall|i: int, j: int|
                0 <= i < j < b.buckets().len() implies (#[trigger] b.buckets()[i]).0 < (
            #[trigger] b.buckets()[j]).0 by {
                assert(a.buckets()[i].0 < a.buckets()[j].0);
            }
        }
        assert forall|i: int|
            0 <= i < b.buckets().len() implies (#[trigger] b.buckets()[i]).1.wf()
                && b.buckets()[i].1@.len() > 0 && LeafBody::bucket_in_range(b.buckets(), i) by {
            assert(a.buckets()[i].1.wf());
            assert(LeafBody::bucket_in_range(a.buckets(), i));
            assert(forall|j: int|
                0 <= j < b.buckets()[i].1@.len() ==> (#[trigger] b.buckets()[i].1@[j]).0
                    <= b.buckets()[i].0 && (i > 0 ==> b.buckets()[i].1@[j].0 > b.buckets()[i
                    - 1].0)) by {
                assert(forall|j: int|
                    0 <= j < a.buckets()[i].1@.len() ==> (#[trigger] a.buckets()[i].1@[j]).0
                        <= a.buckets()[i].0 && (i > 0 ==> a.buckets()[i].1@[j].0 > a.buckets()[i
                        - 1].0));
            }
        }
        match b.unbounded() {
            Some(u) => {
                let u0 = a.unbounded().unwrap();
                assert(u@ == u0@);
                assert(forall|j: int|
                    0 <= j < u@.len() ==> (#[trigger] u@[j]).0 > b.buckets().last().0) by {
                    assert(forall|j: int|
                        0 <= j < u0@.len() ==> (#[trigger] u0@[j]).0 > a.buckets().last().0);
                }
            },
            None => {},
        }
    }
}

/// An insert absorbed without a split adds exactly its own pair and keeps the
/// node well-formed.
#[verifier::rlimit(60)]
pub proof fn lemma_plain_ok(pre: LeafBody, post: LeafBody, key: usize, value: usize)
    requires
        pre.wf(),
        !pre.is_dup(key),
        !pre.routed_full(key),
        LeafBody::plain_ok_post(pre, post, key, value),
    ensures
        post.wf(),
        LeafBody::inserted_exactly(pre, post, key, value),
{
    let bs = pre.buckets();
    let ps = post.buckets();
    lemma_num_lt_sorted(bs, key);
    match pre.route(key) {
        Some(i) => {
            let src = bs[i].1@;
            assert(key <= bs[i].0);
            assert(i > 0 ==> key > bs[i - 1].0) by {
                if i > 0 {
                    assert(bs[i - 1].0 < key);
                }
            }
            assert(!has_key(src, key));
            lemma_sorted_insert_props(src, key, value);
            // well-formedness: only bucket i changed, and its new entry stays
            // inside the bucket's range
            assert(sorted_keys(ps)) by {
                assert(forall|a: int, b: int|
                    0 <= a < b < ps.len() ==> (#[trigger] ps[a]).0 < (#[trigger] ps[b]).0) by {
                    assert(forall|j: int| 0 <= j < ps.len() ==> (#[trigger] ps[j]).0 == bs[j].0);
                }
            }
            assert forall|j: int|
                0 <= j < ps.len() implies (#[trigger] ps[j]).1.wf() && ps[j].1@.len() > 0
                    && LeafBody::bucket_in_range(ps, j) by {
                assert(LeafBody::bucket_in_range(bs, j));
                assert(ps[j].0 == bs[j].0);
                assert(j > 0 ==> ps[j - 1].0 == bs[j - 1].0);
                if j != i {
                    assert(ps[j] == bs[j]);
                    assert(forall|l: int|
                        0 <= l < ps[j].1@.len() ==> (#[trigger] ps[j].1@[l]).0 <= ps[j].0 && (j > 0
                            ==> ps[j].1@[l].0 > ps[j - 1].0));
                } else {
                    assert forall|l: int|
                        0 <= l < ps[j].1@.len() implies (#[trigger] ps[j].1@[l]).0 <= ps[j].0 && (j
                            > 0 ==> ps[j].1@[l].0 > ps[j - 1].0) by {
                        assert(has_entry(ps[j].1@, ps[j].1@[l].0, ps[j].1@[l].1));
                        if has_entry(src, ps[j].1@[l].0, ps[j].1@[l].1) {
                            let w = choose|w: int|
                                0 <= w < src.len() && (#[trigger] src[w]).0 == ps[j].1@[l].0
                                    && src[w].1 == ps[j].1@[l].1;
                            assert(LeafBody::bucket_in_range(bs, i));
                        }
                    }
                }
            }
            match post.unbounded() {
                Some(u) => {
                    let u0 = pre.unbounded().unwrap();
                    assert(forall|j: int|
                        0 <= j < u@.len() ==> (#[trigger] u@[j]).0 > ps.last().0) by {
                        assert(ps.last().0 == bs.last().0);
                    }
                },
                None => {},
            }
            // pair bookkeeping
            assert forall|k2: usize, v2: usize|
                post.contains_pair(k2, v2) == (pre.contains_pair(k2, v2) || (k2 == key && v2
                    == value)) by {
                if post.contains_pair(k2, v2) {
                    if exists|j: int|
                        0 <= j < ps.len() && has_entry((#[trigger] ps[j]).1@, k2, v2) {
                        let j = choose|j: int|
                            0 <= j < ps.len() && has_entry((#[trigger] ps[j]).1@, k2, v2);
                        if j == i {
                            if has_entry(src, k2, v2) {
                                assert(pre.contains_pair(k2, v2));
                            }
                        } else {
                            assert(has_entry(bs[j].1@, k2, v2));
                            assert(pre.contains_pair(k2, v2));
                        }
                    }
                }
                if pre.contains_pair(k2, v2) {
                    if exists|j: int|
                        0 <= j < bs.len() && has_entry((#[trigger] bs[j]).1@, k2, v2) {
                        let j = choose|j: int|
                            0 <= j < bs.len() && has_entry((#[trigger] bs[j]).1@, k2, v2);
                        assert(has_entry(ps[j].1@, k2, v2));
                        assert(post.contains_pair(k2, v2));
                    }
                }
                if k2 == key && v2 == value {
                    assert(has_entry(ps[i].1@, key, value));
                    assert(post.contains_pair(k2, v2));
                }
            }
        },
        None => {
            assert(forall|j: int| 0 <= j < bs.len() ==> (#[trigger] bs[j]).0 < key);
            if bs.len() < ARRAY_SIZE {
                assert(pre.unbounded() is None);
                let nl = ps.last().1@;
                assert(nl == seq![(key, value)]);
                assert(nl[0] == (key, value));
                assert(sorted_keys(ps)) by {
                    assert(forall|a: int, b: int|
                        0 <= a < b < ps.len() ==> (#[trigger] ps[a]).0 < (#[trigger] ps[b]).0) by {
                        assert(forall|j: int| 0 <= j < bs.len() ==> ps[j] == bs[j]);
                        assert(ps[ps.len() - 1].0 == key);
                    }
                }
                assert forall|j: int|
                    0 <= j < ps.len() implies (#[trigger] ps[j]).1.wf() && ps[j].1@.len() > 0
                        && LeafBody::bucket_in_range(ps, j) by {
                    if j < bs.len() {
                        assert(ps[j] == bs[j]);
                        assert(LeafBody::bucket_in_range(bs, j));
                        assert(forall|l: int|
                            0 <= l < ps[j].1@.len() ==> (#[trigger] ps[j].1@[l]).0 <= ps[j].0 && (j
                                > 0 ==> ps[j].1@[l].0 > ps[j - 1].0));
                    } else {
                        assert(j == ps.len() - 1);
                        assert(sorted_keys(nl));
                        assert(forall|l: int|
                            0 <= l < nl.len() ==> (#[trigger] nl[l]).0 <= key && (j > 0 ==> nl[l].0
                                > ps[j - 1].0));
                    }
                }
                assert forall|k2: usize, v2: usize|
                    post.contains_pair(k2, v2) == (pre.contains_pair(k2, v2) || (k2 == key && v2
                        == value)) by {
                    if post.contains_pair(k2, v2) {
                        if exists|j: int|
                            0 <= j < ps.len() && has_entry((#[trigger] ps[j]).1@, k2, v2) {
                            let j = choose|j: int|
                                0 <= j < ps.len() && has_entry((#[trigger] ps[j]).1@, k2, v2);
                            if j < bs.len() {
                                assert(has_entry(bs[j].1@, k2, v2));
                                assert(pre.contains_pair(k2, v2));
                            } else {
                                let w = choose|w: int|
                                    0 <= w < nl.len() && (#[trigger] nl[w]).0 == k2 && nl[w].1
                                        == v2;
                                assert(nl[w] == (key, value));
                            }
                        }
                    }
                    if pre.contains_pair(k2, v2) {
                        if exists|j: int|
                            0 <= j < bs.len() && has_entry((#[trigger] bs[j]).1@, k2, v2) {
                            let j = choose|j: int|
                                0 <= j < bs.len() && has_entry((#[trigger] bs[j]).1@, k2, v2);
                            assert(has_entry(ps[j].1@, k2, v2));
                            assert(post.contains_pair(k2, v2));
                        }
                    }
                    if k2 == key && v2 == value {
                        assert(has_entry(nl, key, value));
                        assert(post.contains_pair(k2, v2));
                    }
                }
            } else {
                let u1 = post.unbounded().unwrap();
                let u0v = match pre.unbounded() {
                    Some(u0) => u0@,
                    None => Seq::<(usize, usize)>::empty(),
                };
                assert(!has_key(u0v, key)) by {
                    match pre.unbounded() {
                        Some(u0) => {
                            if has_key(u0v, key) {
                                assert(pre.is_dup(key));
                            }
                        },
                        None => {},
                    }
                }
                assert(sorted_keys(u0v) && u1@ == sorted_insert(u0v, key, value)) by {
                    match pre.unbounded() {
                        Some(u0) => {},
                        None => {
                            assert(u1@ == seq![(key, value)]);
                            assert(num_lt(u0v, key) == 0);
                            assert(sorted_insert(u0v, key, value) =~= seq![(key, value)]);
                        },
                    }
                }
                lemma_sorted_insert_props(u0v, key, value);
                assert(forall|j: int|
                    0 <= j < u1@.len() ==> (#[trigger] u1@[j]).0 > ps.last().0) by {
                    assert(ps == bs);
                    assert forall|j: int| 0 <= j < u1@.len() implies (#[trigger] u1@[j]).0
                        > bs.last().0 by {
                        assert(has_entry(u1@, u1@[j].0, u1@[j].1));
                        if has_entry(u0v, u1@[j].0, u1@[j].1) {
                            let w = choose|w: int|
                                0 <= w < u0v.len() && (#[trigger] u0v[w]).0 == u1@[j].0
                                    && u0v[w].1 == u1@[j].1;
                        } else {
                            assert(u1@[j].0 == key);
                            assert(bs.last().0 < key);
                        }
                    }
                }
                assert forall|k2: usize, v2: usize|
                    post.contains_pair(k2, v2) == (pre.contains_pair(k2, v2) || (k2 == key && v2
                        == value)) by {
                    if k2 == key && v2 == value {
                        assert(has_entry(sorted_insert(u0v, key, value), key, value));
                        assert(has_entry(u1@, key, value));
                        assert(post.contains_pair(k2, v2));
                    }
                    if post.contains_pair(k2, v2) {
                        if exists|j: int|
                            0 <= j < ps.len() && has_entry((#[trigger] ps[j]).1@, k2, v2) {
                            assert(pre.contains_pair(k2, v2));
                        } else {
                            assert(has_entry(u1@, k2, v2));
                            if has_entry(u0v, k2, v2) {
                                assert(pre.unbounded() is Some);
                                assert(pre.contains_pair(k2, v2));
                            }
                        }
                    }
                    if pre.contains_pair(k2, v2) {
                        if exists|j: int|
                            0 <= j < bs.len() && has_entry((#[trigger] bs[j]).1@, k2, v2) {
                            assert(post.contains_pair(k2, v2));
                        } else {
                            assert(pre.unbounded() is Some);
                            assert(has_entry(u0v, k2, v2));
                            assert(has_entry(u1@, k2, v2));
                            assert(post.contains_pair(k2, v2));
                        }
                    }
                }
            }
        },
    }
}

/// A split that only staged its halves leaves every linked entry in place
/// and stores well-formed leaves in the staging slots.
pub proof fn lemma_split_staged(
    pre: LeafBody,
    post: LeafBody,
    src: Seq<(usize, usize)>,
    key: usize,
    value: usize,
)
    requires
        pre.wf(),
        sorted_keys(src),
        !has_key(src, key),
        2 <= src.len() <= ARRAY_SIZE,
        LeafBody::split_staged_post(pre, post, src, key, value),
    ensures
        post.wf(),
        LeafBody::same_pairs(pre, post),
{
    lemma_split_parts(src, key, value);
}

/// A successfully re-linked split keeps the node well-formed and adds
/// exactly the overflow pair.
#[verifier::rlimit(100)]
pub proof fn lemma_split_ok(pre: LeafBody, post: LeafBody, i: int, key: usize, value: usize)
    requires
        pre.wf(),
        pre.route(key) == Some(i),
        pre.buckets()[i].1@.len() >= ARRAY_SIZE,
        !has_key(pre.buckets()[i].1@, key),
        pre.buckets().len() < ARRAY_SIZE,
        LeafBody::split_ok_post(pre, post, i, key, value),
    ensures
        post.wf(),
        LeafBody::inserted_exactly(pre, post, key, value),
{
    let bs = pre.buckets();
    let ps = post.buckets();
    let src = bs[i].1@;
    let lo = split_low(src, key, value);
    let hi = split_high(src, key, value);
    let h = src.len() as int / 2;
    lemma_num_lt_sorted(bs, key);
    lemma_split_parts(src, key, value);
    assert(0 <= i < bs.len());
    assert(key <= bs[i].0);
    assert(forall|j: int| 0 <= j < i ==> (#[trigger] bs[j]).0 < key);
    assert(LeafBody::bucket_in_range(bs, i));
    let mk = lo.last().0;
    assert(mk == low_half(src).last().0);
    assert(low_half(src)[h - 1] == src[h - 1]);
    assert(mk == src[h - 1].0);
    assert(mk < bs[i].0) by {
        if h - 1 < src.len() - 1 {
            assert(src[h - 1].0 < src[src.len() - 1].0);
        }
        assert(src[src.len() - 1].0 <= bs[i].0);
    }
    assert(i > 0 ==> mk > bs[i - 1].0);
    assert(pre.unbounded() is None);
    // the keys of the rebuilt bucket array
    assert(forall|j: int| 0 <= j < i ==> (#[trigger] ps[j]).0 == bs[j].0 && ps[j].1@ == bs[j].1@);
    assert(ps[i].0 == mk && ps[i].1@ == lo);
    assert(ps[i + 1].0 == bs[i].0 && ps[i + 1].1@ == hi);
    assert(forall|j: int|
        i + 1 < j < ps.len() ==> (#[trigger] ps[j]).0 == bs[j - 1].0 && ps[j].1@ == bs[j - 1].1@);
    assert(sorted_keys(ps)) by {
        assert forall|a: int, b: int|
            0 <= a < b < ps.len() implies (#[trigger] ps[a]).0 < (#[trigger] ps[b]).0 by {
            if a < i && b < i {
                assert(bs[a].0 < bs[b].0);
            } else if a < i && b == i {
                assert(bs[a].0 < key);
            } else if a < i && b == i + 1 {
                assert(bs[a].0 < bs[i].0);
            } else if a < i && b > i + 1 {
                assert(bs[a].0 < bs[b - 1].0);
            } else if a == i && b == i + 1 {
            } else if a == i && b > i + 1 {
                assert(bs[i].0 <= bs[b - 1].0) by {
                    if i < b - 1 {
                        assert(bs[i].0 < bs[b - 1].0);
                    }
                }
            } else if a == i + 1 && b > i + 1 {
                assert(bs[i].0 < bs[b - 1].0);
            } else {
                assert(bs[a - 1].0 < bs[b - 1].0);
            }
        }
    }
    // every rebuilt bucket is well-formed and stays in its range
    assert forall|j: int|
        0 <= j < ps.len() implies (#[trigger] ps[j]).1.wf() && ps[j].1@.len() > 0
            && LeafBody::bucket_in_range(ps, j) by {
        if j < i {
            assert(LeafBody::bucket_in_range(bs, j));
            assert(forall|l: int|
                0 <= l < ps[j].1@.len() ==> (#[trigger] ps[j].1@[l]).0 <= ps[j].0 && (j > 0
                    ==> ps[j].1@[l].0 > ps[j - 1].0));
        } else if j == i {
            assert(sorted_keys(lo) && lo.len() <= ARRAY_SIZE) by {
                assert(lo.len() + hi.len() == src.len() + 1);
            }
            assert forall|l: int|
                0 <= l < lo.len() implies (#[trigger] lo[l]).0 <= mk && (j > 0 ==> lo[l].0 > ps[j
                - 1].0) by {
                assert(lo[l].0 <= lo.last().0) by {
                    if l < lo.len() - 1 {
                        assert(lo[l].0 < lo[lo.len() - 1].0);
                    }
                }
                if j > 0 {
                    assert(has_entry(lo, lo[l].0, lo[l].1));
                    if has_entry(src, lo[l].0, lo[l].1) {
                        let w = choose|w: int|
                            0 <= w < src.len() && (#[trigger] src[w]).0 == lo[l].0 && src[w].1
                                == lo[l].1;
                        assert(src[w].0 > bs[i - 1].0);
                    } else {
                        assert(lo[l].0 == key);
                        assert(bs[i - 1].0 < key);
                    }
                }
            }
        } else if j == i + 1 {
            assert(sorted_keys(hi) && hi.len() <= ARRAY_SIZE) by {
                assert(lo.len() + hi.len() == src.len() + 1);
            }
            assert forall|l: int|
                0 <= l < hi.len() implies (#[trigger] hi[l]).0 <= ps[j].0 && hi[l].0 > mk by {
                assert(has_entry(hi, hi[l].0, hi[l].1));
                if has_entry(src, hi[l].0, hi[l].1) {
                    let w = choose|w: int|
                        0 <= w < src.len() && (#[trigger] src[w]).0 == hi[l].0 && src[w].1
                            == hi[l].1;
                    assert(src[w].0 <= bs[i].0);
                } else {
                    assert(hi[l].0 == key);
                }
                assert(lo[lo.len() - 1].0 < hi[l].0);
            }
        } else {
            assert(LeafBody::bucket_in_range(bs, j - 1));
            assert forall|l: int|
                0 <= l < ps[j].1@.len() implies (#[trigger] ps[j].1@[l]).0 <= ps[j].0 && (j > 0
                    ==> ps[j].1@[l].0 > ps[j - 1].0) by {
                assert(bs[j - 1].1@[l].0 <= bs[j - 1].0);
                if j == i + 2 {
                    assert(j - 1 > 0 ==> bs[j - 1].1@[l].0 > bs[j - 2].0);
                    assert(ps[j - 1].0 == bs[i].0);
                    assert(bs[j - 1].1@[l].0 > bs[j - 2].0);
                } else {
                    assert(bs[j - 1].1@[l].0 > bs[j - 2].0);
                }
            }
        }
    }
    // pair bookkeeping: the two new buckets together hold the old bucket's
    // entries plus the overflow pair; everything else moved unchanged
    assert forall|k2: usize, v2: usize|
        post.contains_pair(k2, v2) == (pre.contains_pair(k2, v2) || (k2 == key && v2 == value)) by {
        if post.contains_pair(k2, v2) {
            if exists|j: int| 0 <= j < ps.len() && has_entry((#[trigger] ps[j]).1@, k2, v2) {
                let j = choose|j: int| 0 <= j < ps.len() && has_entry((#[trigger] ps[j]).1@, k2, v2);
                if j < i {
                    assert(has_entry(bs[j].1@, k2, v2));
                    assert(pre.contains_pair(k2, v2));
                } else if j == i || j == i + 1 {
                    if has_entry(src, k2, v2) {
                        assert(pre.contains_pair(k2, v2));
                    }
                } else {
                    assert(has_entry(bs[j - 1].1@, k2, v2));
                    assert(pre.contains_pair(k2, v2));
                }
            }
        }
        if pre.contains_pair(k2, v2) {
            if exists|j: int| 0 <= j < bs.len() && has_entry((#[trigger] bs[j]).1@, k2, v2) {
                let j = choose|j: int| 0 <= j < bs.len() && has_entry((#[trigger] bs[j]).1@, k2, v2);
                if j < i {
                    assert(has_entry(ps[j].1@, k2, v2));
                    assert(post.contains_pair(k2, v2));
                } else if j == i {
                    assert(has_entry(lo, k2, v2) || has_entry(hi, k2, v2));
                    assert(has_entry(ps[i].1@, k2, v2) || has_entry(ps[i + 1].1@, k2, v2));
                    assert(post.contains_pair(k2, v2));
                } else {
                    assert(has_entry(ps[j + 1].1@, k2, v2));
                    assert(post.contains_pair(k2, v2));
                }
            }
        }
        if k2 == key && v2 == value {
            assert(has_entry(lo, k2, v2) || has_entry(hi, k2, v2));
            assert(post.contains_pair(k2, v2));
        }
    }
}

impl Node {
    pub closed spec fn floor_of(self) -> usize {
        self.floor
    }

    pub open spec fn is_leaf_node(self) -> bool {
        self.floor_of() == 0
    }

    /// The leaf-level body; meaningful on floor 0 only.
    pub closed spec fn leaf_body(self) -> LeafBody {
        match self.entry {
            NodeType::LeafNode(b) => b,
            NodeType::InternalNode(_) => arbitrary(),
        }
    }

    /// The routing body; meaningful on floors >= 1 only.
    pub closed spec fn internal_body(self) -> InternalBody {
        match self.entry {
            NodeType::InternalNode(b) => b,
            NodeType::LeafNode(_) => arbitrary(),
        }
    }

    pub closed spec fn wf_rec(self, fl: nat) -> bool
        decreases fl, 1int,
    {
        self.floor == fl && match self.entry {
            NodeType::LeafNode(b) => fl == 0 && b.wf(),
            NodeType::InternalNode(b) => fl >= 1 && b.wf_rec(fl),
        }
    }

    pub open spec fn wf(self) -> bool {
        self.wf_rec(self.floor_of() as nat)
    }

    pub closed spec fn contains_rec(self, fl: nat, k: usize, v: usize) -> bool
        decreases fl, 1int,
    {
        match self.entry {
            NodeType::LeafNode(b) => b.contains_pair(k, v),
            NodeType::InternalNode(b) => fl >= 1 && b.contains_rec(fl, k, v),
        }
    }

    pub open spec fn contains_pair(self, k: usize, v: usize) -> bool {
        self.contains_rec(self.floor_of() as nat, k, v)
    }

    pub open spec fn contains_key(self, k: usize) -> bool {
        exists|v: usize| self.contains_pair(k, v)
    }

    /// Nothing stored under `a` changed relative to `b`.
    pub open spec fn same_pairs(a: Node, b: Node) -> bool {
        forall|k: usize, v: usize| b.contains_pair(k, v) == a.contains_pair(k, v)
    }

    /// Exactly `(key, value)` was added going from `a` to `b`.
    pub open spec fn inserted_exactly(a: Node, b: Node, key: usize, value: usize) -> bool {
        forall|k: usize, v: usize|
            b.contains_pair(k, v) == (a.contains_pair(k, v) || (k == key && v == value))
    }

    pub fn new(floor: usize) -> (r: Node)
        ensures
            r.wf(),
            r.floor_of() == floor,
            forall|k: usize, v: usize| !r.contains_pair(k, v),
            floor == 0 ==> r.is_leaf_node() && r.leaf_body().buckets().len() == 0
                && r.leaf_body().unbounded() is None && r.leaf_body().staged_low() is None
                && r.leaf_body().staged_high() is None,
            floor >= 1 ==> !r.is_leaf_node() && r.internal_body().buckets().len() == 0
                && r.internal_body().unbounded() is None && r.internal_body().staged_low() is None
                && r.internal_body().staged_high() is None,
    {
        Node {
            entry: if floor > 0 {
                NodeType::InternalNode(
                    InternalBody {
                        bounded_children: Vec::new(),
                        unbounded_child: None,
                        reserved_low_key: None,
                        reserved_high_key: None,
                    },
                )
            } else {
                NodeType::LeafNode(
                    LeafBody {
                        bounded_children: Leaf::new(),
                        unbounded_child: None,
                        reserved_low_key: None,
                        reserved_high_key: None,
                    },
                )
            },
            floor,
        }
    }
}

impl InternalBody {
    pub closed spec fn buckets(self) -> Seq<(usize, Node)> {
        self.bounded_children@
    }

    pub closed spec fn unbounded(self) -> Option<Box<Node>> {
        self.unbounded_child
    }

    pub closed spec fn staged_low(self) -> Option<Box<Node>> {
        self.reserved_low_key
    }

    pub closed spec fn staged_high(self) -> Option<Box<Node>> {
        self.reserved_high_key
    }

    /// Every key reachable through the child under bucket `i` lies in the
    /// half-open range `(key of bucket i-1, key of bucket i]`.
    pub open spec fn child_in_range(bs: Seq<(usize, Node)>, fl: nat, i: int) -> bool {
        forall|k: usize, v: usize|
            #[trigger] bs[i].1.contains_rec((fl - 1) as nat, k, v) ==> k <= bs[i].0 && (i > 0
                ==> k > bs[i - 1].0)
    }

    pub closed spec fn wf_rec(self, fl: nat) -> bool
        decreases fl, 0int,
    {
        &&& fl >= 1
        &&& sorted_keys(self.buckets())
        &&& self.buckets().len() <= ARRAY_SIZE
        &&& forall|i: int|
            0 <= i < self.buckets().len() ==> (#[trigger] self.buckets()[i]).1.wf_rec(
                (fl - 1) as nat,
            ) && Self::child_in_range(self.buckets(), fl, i)
        &&& match self.unbounded() {
            Some(u) => u.wf_rec((fl - 1) as nat) && self.buckets().len() == ARRAY_SIZE && forall|
                k: usize,
                v: usize,
            |
                #[trigger] u.contains_rec((fl - 1) as nat, k, v) ==> k > self.buckets().last().0,
            None => true,
        }
        &&& match self.staged_low() {
            Some(n) => n.floor_of() == fl - 1,
            None => true,
        }
        &&& match self.staged_high() {
            Some(n) => n.floor_of() == fl - 1,
            None => true,
        }
    }

    pub closed spec fn contains_rec(self, fl: nat, k: usize, v: usize) -> bool
        decreases fl, 0int,
    {
        fl >= 1 && ((exists|i: int|
            0 <= i < self.buckets().len() && (#[trigger] self.buckets()[i]).1.contains_rec(
                (fl - 1) as nat,
                k,
                v,
            )) || (match self.unbounded() {
            Some(u) => u.contains_rec((fl - 1) as nat, k, v),
            None => false,
        }))
    }
}

impl Node {
    /// Inserts a key-value pair, recursing top-down from this node.
    ///
    /// On floor 0 the outcome follows the terminal-level protocol exactly
    /// (see `LeafBody::leaf_insert_post`). On every floor: `Duplicated`
    /// comes back if and only if the key is already stored, and then carries
    /// the offered pair while the stored binding stays canonical; any error
    /// leaves the stored pairs untouched and hands the pair back; success
    /// means the key was absent and exactly the routed pair was added. At a
    /// routing level a child's `Full` is absorbed by splitting the
    /// overflowing slot, after which the caller is sent back to the top
    /// with `Retry` -- or the `Full` travels further up when this level's
    /// own index is the obstacle.
    pub fn insert(&mut self, key: usize, value: usize) -> (r: Result<(), Error>)
        requires
            old(self).wf(),
        ensures
            final(self).wf(),
            final(self).floor_of() == old(self).floor_of(),
            (r == Err::<(), Error>(Error::Duplicated((key, value)))) == old(self).contains_key(key),
            r matches Err(Error::Duplicated(p)) ==> p == (key, value),
            r matches Err(Error::Retry(p)) ==> p == (key, value),
            r matches Err(Error::Full(p, _)) ==> p == (key, value),
            !(r is Ok) ==> Node::same_pairs(*old(self), *final(self)),
            r is Ok ==> !old(self).contains_key(key),
            r is Ok ==> Node::inserted_exactly(*old(self), *final(self), key, value),
            old(self).is_leaf_node() ==> LeafBody::leaf_insert_post(
                old(self).leaf_body(),
                final(self).leaf_body(),
                key,
                value,
                r,
            ),
        decreases old(self).floor_of(), 1int,
    {
        let floor: usize = self.floor;
        let mut entry: NodeType = NodeType::LeafNode(
            LeafBody {
                bounded_children: Leaf::new(),
                unbounded_child: None,
                reserved_low_key: None,
                reserved_high_key: None,
            },
        );
        core::mem::swap(&mut entry, &mut self.entry);
        match entry {
            NodeType::LeafNode(mut body) => {
                let ghost bpre = body;
                let r = body.insert(key, value);
                let ghost bpost = body;
                self.entry = NodeType::LeafNode(body);
                proof {
                    assert(old(self).leaf_body() == bpre);
                    assert(self.leaf_body() == bpost);
                    assert(old(self).is_leaf_node());
                    lemma_dup_iff_contains(bpre, key);
                    assert(old(self).contains_key(key) == bpre.contains_key(key)) by {
                        if old(self).contains_key(key) {
                            let v = choose|v: usize| old(self).contains_pair(key, v);
                            assert(bpre.contains_pair(key, v));
                        }
                        if bpre.contains_key(key) {
                            let v = choose|v: usize| bpre.contains_pair(key, v);
                            assert(old(self).contains_pair(key, v));
                        }
                    }
                    if !(r is Ok) {
                        assert forall|k2: usize, v2: usize|
                            #[trigger] self.contains_pair(k2, v2) == old(self).contains_pair(
                            k2,
                            v2,
                        ) by {
                            assert(bpost.contains_pair(k2, v2) == bpre.contains_pair(k2, v2));
                        }
                    }
                    if r is Ok {
                        assert forall|k2: usize, v2: usize|
                            #[trigger] self.contains_pair(k2, v2) == (old(self).contains_pair(
                            k2,
                            v2,
                        ) || (k2 == key && v2 == value)) by {
                            assert(bpost.contains_pair(k2, v2) == (bpre.contains_pair(k2, v2) || (
                            k2 == key && v2 == value)));
                        }
                    }
                }
                r
            },
            NodeType::InternalNode(mut body) => {
                let ghost bpre = body;
                let r = body.insert(floor, key, value);
                let ghost bpost = body;
                self.entry = NodeType::InternalNode(body);
                proof {
                    assert(old(self).internal_body() == bpre);
                    assert(self.internal_body() == bpost);
                    assert(floor >= 1);
                    assert(old(self).contains_key(key) == bpre.contains_key_rec(
                        floor as nat,
                        key,
                    )) by {
                        if old(self).contains_key(key) {
                            let v = choose|v: usize| old(self).contains_pair(key, v);
                            assert(bpre.contains_rec(floor as nat, key, v));
                        }
                        if bpre.contains_key_rec(floor as nat, key) {
                            let v = choose|v: usize| bpre.contains_rec(floor as nat, key, v);
                            assert(old(self).contains_pair(key, v));
                        }
                    }
                    if !(r is Ok) {
                        assert forall|k2: usize, v2: usize|
                            #[trigger] self.contains_pair(k2, v2) == old(self).contains_pair(
                            k2,
                            v2,
                        ) by {
                            assert(bpost.contains_rec(floor as nat, k2, v2) == bpre.contains_rec(
                                floor as nat,
                                k2,
                                v2,
                            ));
                        }
                    }
                    if r is Ok {
                        assert forall|k2: usize, v2: usize|
                            #[trigger] self.contains_pair(k2, v2) == (old(self).contains_pair(
                            k2,
                            v2,
                        ) || (k2 == key && v2 == value)) by {
                            assert(bpost.contains_rec(floor as nat, k2, v2) == (bpre.contains_rec(
                                floor as nat,
                                k2,
                                v2,
                            ) || (k2 == key && v2 == value)));
                        }
                    }
                }
                r
            },
        }
    }
}

impl Node {
    /// Splits a full child of this routing node, one level up from the leaf
    /// protocol: the child's routing buckets are redistributed instead of
    /// data entries, and a bucket caught mid-split carries its staged leaves
    /// along. The claim-and-stage discipline matches `LeafBody::split_leaf`;
    /// no stored pair is gained or lost here, and a staged split anywhere on
    /// this node backs the caller off with `Retry`.
    pub fn split_node(&mut self, entry: (usize, usize), full_bucket: Option<usize>) -> (r: Result<
        (),
        Error,
    >)
        requires
            old(self).wf(),
            !old(self).is_leaf_node(),
            match full_bucket {
                Some(i) => i < old(self).internal_body().buckets().len() && (old(self).floor_of()
                    == 1 ==> old(self).internal_body().buckets()[i as int].1.leaf_body().buckets().len()
                    >= ARRAY_SIZE),
                None => old(self).internal_body().unbounded() is Some,
            },
        ensures
            final(self).wf(),
            final(self).floor_of() == old(self).floor_of(),
            Node::same_pairs(*old(self), *final(self)),
            r matches Err(Error::Retry(p)) ==> p == entry,
            r matches Err(Error::Full(p, _)) ==> p == entry,
            old(self).internal_body().blocked() ==> r == Err::<(), Error>(Error::Retry(entry)),
            !old(self).internal_body().blocked() && old(self).floor_of() >= 2 ==> r == Err::<
                (),
                Error,
            >(Error::Retry(entry)),
            !old(self).internal_body().blocked() && old(self).floor_of() == 1 ==> (
            match full_bucket {
                Some(i) => r == Err::<(), Error>(
                    Error::Full(entry, Some(old(self).internal_body().buckets()[i as int].0)),
                ),
                None => r == Ok::<(), Error>(()),
            }),
            !old(self).internal_body().blocked() && old(self).floor_of() == 1
                ==> (final(self).internal_body().staged_low() matches Some(lo)
                && lo.is_leaf_node()) && (final(self).internal_body().staged_high() matches Some(
                hi,
            ) && hi.is_leaf_node()),
            !old(self).internal_body().blocked() && old(self).floor_of() == 1 && full_bucket
                is None ==> ({
                let child = old(self).internal_body().unbounded().unwrap().leaf_body();
                let lo = final(self).internal_body().staged_low().unwrap().leaf_body();
                let hi = final(self).internal_body().staged_high().unwrap().leaf_body();
                &&& (forall|j: int, l: int|
                    0 <= j < child.buckets().len() && 0 <= l < child.buckets()[j].1@.len()
                        ==> lo.contains_pair(
                        (#[trigger] child.buckets()[j].1@[l]).0,
                        child.buckets()[j].1@[l].1,
                    ) || hi.contains_pair(child.buckets()[j].1@[l].0, child.buckets()[j].1@[l].1))
                &&& (child.staged_high() matches Some(sh) ==> hi.unbounded() matches Some(t) && t@
                    == sh@)
            }),
    {
        let floor: usize = self.floor;
        let mut taken: NodeType = NodeType::LeafNode(
            LeafBody {
                bounded_children: Leaf::new(),
                unbounded_child: None,
                reserved_low_key: None,
                reserved_high_key: None,
            },
        );
        core::mem::swap(&mut taken, &mut self.entry);
        match taken {
            NodeType::InternalNode(mut body) => {
                let ghost bpre = body;
                let r = body.split_node(floor, entry, full_bucket);
                let ghost bpost = body;
                self.entry = NodeType::InternalNode(body);
                proof {
                    assert(old(self).internal_body() == bpre);
                    assert(self.internal_body() == bpost);
                    assert forall|k2: usize, v2: usize|
                        #[trigger] self.contains_pair(k2, v2) == old(self).contains_pair(
                        k2,
                        v2,
                    ) by {
                        assert(bpost.contains_rec(floor as nat, k2, v2) == bpre.contains_rec(
                            floor as nat,
                            k2,
                            v2,
                        ));
                    }
                }
                r
            },
            NodeType::LeafNode(b) => {
                proof {
                    assert(false);
                }
                self.entry = NodeType::LeafNode(b);
                Err(Error::Retry(entry))
            },
        }
    }
}

proof fn lemma_contains_unique_rec(n: Node, fl: nat, k: usize, v1: usize, v2: usize)
    requires
        n.wf_rec(fl),
        n.contains_rec(fl, k, v1),
        n.contains_rec(fl, k, v2),
    ensures
        v1 == v2,
    decreases fl,
{
    match n.entry {
        NodeType::LeafNode(b) => {
            let bs = b.buckets();
            lemma_num_lt_sorted(bs, k);
            let r = num_lt(bs, k);
            // each pair carrying k sits in the container routing sends k to
            assert forall|v: usize| #[trigger] b.contains_pair(k, v) implies (if r < bs.len() {
                has_entry(bs[r].1@, k, v)
            } else {
                b.unbounded() is Some && has_entry(b.unbounded().unwrap()@, k, v)
            }) by {
                if exists|i: int| 0 <= i < bs.len() && has_entry((#[trigger] bs[i]).1@, k, v) {
                    let i = choose|i: int|
                        0 <= i < bs.len() && has_entry((#[trigger] bs[i]).1@, k, v);
                    assert(k <= bs[i].0 && (i > 0 ==> k > bs[i - 1].0)) by {
                        let j = choose|j: int|
                            0 <= j < bs[i].1@.len() && (#[trigger] bs[i].1@[j]).0 == k
                                && bs[i].1@[j].1 == v;
                        assert(LeafBody::bucket_in_range(bs, i));
                    }
                    assert(r == i) by {
                        assert(forall|l: int| 0 <= l < i ==> (#[trigger] bs[l]).0 < k) by {
                            assert(forall|l: int|
                                0 <= l < i - 1 ==> (#[trigger] bs[l]).0 < bs[i - 1].0);
                        }
                        if r < i {
                            assert(bs[r].0 >= k);
                        }
                        if r > i {
                            assert(bs[i].0 < k);
                        }
                    }
                } else {
                    let u = b.unbounded().unwrap();
                    assert(has_entry(u@, k, v));
                    assert(k > bs.last().0) by {
                        let j = choose|j: int|
                            0 <= j < u@.len() && (#[trigger] u@[j]).0 == k && u@[j].1 == v;
                    }
                    assert(r == bs.len()) by {
                        assert(forall|l: int| 0 <= l < bs.len() ==> (#[trigger] bs[l]).0 < k) by {
                            assert(forall|l: int|
                                0 <= l < bs.len() - 1 ==> (#[trigger] bs[l]).0 < bs[bs.len()
                                    - 1].0);
                        }
                        if r < bs.len() {
                            assert(bs[r].0 >= k);
                        }
                    }
                }
            }
            if r < bs.len() {
                assert(bs[r].1.wf());
                lemma_sorted_entry_unique(bs[r].1@, k, v1, v2);
            } else {
                let u = b.unbounded().unwrap();
                lemma_sorted_entry_unique(u@, k, v1, v2);
            }
        },
        NodeType::InternalNode(b) => {
            let bs = b.buckets();
            lemma_ib_route_unique(b, fl, k);
            lemma_num_lt_sorted(bs, k);
            let r = num_lt(bs, k);
            assert(b.contains_rec(fl, k, v1));
            assert(b.contains_rec(fl, k, v2));
            assert forall|v: usize| #[trigger] b.contains_rec(fl, k, v) implies (if r < bs.len() {
                bs[r].1.contains_rec((fl - 1) as nat, k, v)
            } else {
                b.unbounded() is Some && b.unbounded().unwrap().contains_rec((fl - 1) as nat, k, v)
            }) by {
                if exists|i: int|
                    0 <= i < bs.len() && (#[trigger] bs[i]).1.contains_rec((fl - 1) as nat, k, v) {
                    let i = choose|i: int|
                        0 <= i < bs.len() && (#[trigger] bs[i]).1.contains_rec(
                            (fl - 1) as nat,
                            k,
                            v,
                        );
                    assert(r == i);
                } else {
                    assert(b.unbounded().unwrap().contains_rec((fl - 1) as nat, k, v));
                }
            }
            if r < bs.len() {
                assert(bs[r].1.wf_rec((fl - 1) as nat));
                lemma_contains_unique_rec(bs[r].1, (fl - 1) as nat, k, v1, v2);
            } else {
                let u = b.unbounded().unwrap();
                lemma_contains_unique_rec(*u, (fl - 1) as nat, k, v1, v2);
            }
        },
    }
}

/// Keys are unique throughout the structure: a stored key carries exactly
/// one value, so a scanned entry is reproduced verbatim by an independent
/// point search, and a successfully inserted key is retrieved with the very
/// value it was inserted with.
pub proof fn lemma_key_binding_unique(n: Node, k: usize, v1: usize, v2: usize)
    requires
        n.wf(),
        n.contains_pair(k, v1),
        n.contains_pair(k, v2),
    ensures
        v1 == v2,
{
    lemma_contains_unique_rec(n, n.floor_of() as nat, k, v1, v2);
}

/// Each successful insert adds exactly its own pair and leaves every other
/// stored binding in place: keys inserted by distinct successful inserts
/// stay independently retrievable afterward, each with its own value.
pub proof fn lemma_insert_preserves_others(
    pre: Node,
    post: Node,
    key: usize,
    value: usize,
    k2: usize,
    v2: usize,
)
    requires
        Node::inserted_exactly(pre, post, key, value),
        k2 != key,
    ensures
        post.contains_pair(key, value),
        post.contains_pair(k2, v2) == pre.contains_pair(k2, v2),
{
}

/// A node stores a pair at its own floor exactly as `contains_pair` says.
proof fn lemma_node_pairs_at(n: Node, fl: nat)
    requires
        n.floor_of() as nat == fl,
    ensures
        forall|k: usize, v: usize| #[trigger] n.contains_rec(fl, k, v) == n.contains_pair(k, v),
{
}

impl InternalBody {
    pub open spec fn contains_key_rec(self, fl: nat, k: usize) -> bool {
        exists|v: usize| self.contains_rec(fl, k, v)
    }

    fn child_min_ge(&self, key: usize) -> (r: Option<usize>)
        ensures
            match r {
                Some(i) => i < self.buckets().len() && self.buckets()[i as int].0 >= key && forall|
                    j: int,
                |
                    0 <= j < i ==> (#[trigger] self.buckets()[j]).0 < key,
                None => forall|j: int|
                    0 <= j < self.buckets().len() ==> (#[trigger] self.buckets()[j]).0 < key,
            },
    {
        let n: usize = self.bounded_children.len();
        let mut i: usize = 0;
        while i < n
            invariant
                i <= n,
                n == self.buckets().len(),
                forall|j: int| 0 <= j < i ==> (#[trigger] self.buckets()[j]).0 < key,
            decreases n - i,
        {
            if self.bounded_children[i].0 >= key {
                return Some(i);
            }
            i = i + 1;
        }
        None
    }

    /// Swaps the child stored under bucket `i`, leaving the key in place.
    fn swap_child(&mut self, i: usize, c: Node) -> (r: Node)
        requires
            i < old(self).buckets().len(),
        ensures
            r == old(self).buckets()[i as int].1,
            final(self).buckets() == old(self).buckets().update(
                i as int,
                (old(self).buckets()[i as int].0, c),
            ),
            final(self).unbounded() == old(self).unbounded(),
            final(self).staged_low() == old(self).staged_low(),
            final(self).staged_high() == old(self).staged_high(),
    {
        let (k, old_c) = self.bounded_children.remove(i);
        self.bounded_children.insert(i, (k, c));
        proof {
            assert(self.bounded_children@ =~= old(self).bounded_children@.update(
                i as int,
                (old(self).bounded_children@[i as int].0, c),
            ));
        }
        old_c
    }
}

/// Within a well-formed routing level, a key reachable through a child pins
/// that child's bucket position down, and a key reachable through the tail
/// lies past every bucket.
proof fn lemma_ib_route_unique(b: InternalBody, fl: nat, key: usize)
    requires
        b.wf_rec(fl),
        fl >= 1,
    ensures
        forall|i: int, v: usize|
            0 <= i < b.buckets().len() && #[trigger] b.buckets()[i].1.contains_rec(
                (fl - 1) as nat,
                key,
                v,
            ) ==> num_lt(b.buckets(), key) == i,
        forall|v: usize|
            b.unbounded() is Some && #[trigger] b.unbounded().unwrap().contains_rec(
                (fl - 1) as nat,
                key,
                v,
            ) ==> num_lt(b.buckets(), key) == b.buckets().len(),
{
    let bs = b.buckets();
    lemma_num_lt_sorted(bs, key);
    assert forall|i: int, v: usize|
        0 <= i < bs.len() && #[trigger] bs[i].1.contains_rec((fl - 1) as nat, key, v) implies num_lt(
        bs,
        key,
    ) == i by {
        assert(InternalBody::child_in_range(bs, fl, i));
        assert(key <= bs[i].0 && (i > 0 ==> key > bs[i - 1].0));
        if num_lt(bs, key) < i {
            assert(bs[num_lt(bs, key)].0 >= key);
            assert(bs[num_lt(bs, key)].0 < bs[i - 1].0 || num_lt(bs, key) == i - 1);
        }
        if num_lt(bs, key) > i {
            assert(bs[i].0 < key);
        }
    }
    assert forall|v: usize|
        b.unbounded() is Some && #[trigger] b.unbounded().unwrap().contains_rec(
            (fl - 1) as nat,
            key,
            v,
        ) implies num_lt(bs, key) == bs.len() by {
        let u = b.unbounded().unwrap();
        assert(key > bs.last().0);
        assert(forall|l: int| 0 <= l < bs.len() ==> (#[trigger] bs[l]).0 < key) by {
            assert(forall|l: int|
                0 <= l < bs.len() - 1 ==> (#[trigger] bs[l]).0 < bs[bs.len() - 1].0);
        }
        if num_lt(bs, key) < bs.len() {
            assert(bs[num_lt(bs, key)].0 >= key);
        }
    }
}

/// Updating the child under bucket `i` with a well-formed child whose extra
/// content is at most the routed pair keeps the level well-formed and
/// changes the reachable pairs by at most that pair.
proof fn lemma_ib_update_bucket(
    pre: InternalBody,
    post: InternalBody,
    fl: nat,
    i: int,
    key: usize,
    value: usize,
)
    requires
        pre.wf_rec(fl),
        fl >= 1,
        0 <= i < pre.buckets().len(),
        post.buckets().len() == pre.buckets().len(),
        forall|j: int|
            0 <= j < pre.buckets().len() && j != i ==> post.buckets()[j] == pre.buckets()[j],
        post.buckets()[i].0 == pre.buckets()[i].0,
        post.unbounded() == pre.unbounded(),
        post.staged_low() == pre.staged_low(),
        post.staged_high() == pre.staged_high(),
        post.buckets()[i].1.wf_rec((fl - 1) as nat),
        forall|k: usize, v: usize|
            #[trigger] post.buckets()[i].1.contains_rec((fl - 1) as nat, k, v)
                ==> pre.buckets()[i].1.contains_rec((fl - 1) as nat, k, v) || (k == key && v
                == value),
        forall|k: usize, v: usize|
            #[trigger] pre.buckets()[i].1.contains_rec((fl - 1) as nat, k, v)
                ==> post.buckets()[i].1.contains_rec((fl - 1) as nat, k, v),
        key <= pre.buckets()[i].0,
        i > 0 ==> key > pre.buckets()[i - 1].0,
    ensures
        post.wf_rec(fl),
        forall|k: usize, v: usize|
            #[trigger] pre.contains_rec(fl, k, v) ==> post.contains_rec(fl, k, v),
        forall|k: usize, v: usize|
            #[trigger] post.contains_rec(fl, k, v) ==> pre.contains_rec(fl, k, v) || (k == key && v
                == value),
{
    let bs = pre.buckets();
    let ps = post.buckets();
    assert(sorted_keys(ps)) by {
        assert forall|a: int, b: int|
            0 <= a < b < ps.len() implies (#[trigger] ps[a]).0 < (#[trigger] ps[b]).0 by {
            assert(ps[a].0 == bs[a].0 && ps[b].0 == bs[b].0);
            assert(bs[a].0 < bs[b].0);
        }
    }
    assert forall|j: int|
        0 <= j < ps.len() implies (#[trigger] ps[j]).1.wf_rec((fl - 1) as nat)
            && InternalBody::child_in_range(ps, fl, j) by {
        assert(bs[j].1.wf_rec((fl - 1) as nat));
        assert(InternalBody::child_in_range(bs, fl, j));
        assert(ps[j].0 == bs[j].0);
        assert(j > 0 ==> ps[j - 1].0 == bs[j - 1].0);
        assert forall|k: usize, v: usize|
            #[trigger] ps[j].1.contains_rec((fl - 1) as nat, k, v) implies k <= ps[j].0 && (j > 0
            ==> k > ps[j - 1].0) by {
            if j == i {
                if bs[i].1.contains_rec((fl - 1) as nat, k, v) {
                } else {
                    assert(k == key);
                }
            } else {
                assert(bs[j].1.contains_rec((fl - 1) as nat, k, v));
            }
        }
    }
    match post.unbounded() {
        Some(u) => {
            assert(ps.last().0 == bs.last().0);
            assert(forall|k: usize, v: usize|
                #[trigger] u.contains_rec((fl - 1) as nat, k, v) ==> k > ps.last().0);
        },
        None => {},
    }
    assert forall|k: usize, v: usize|
        #[trigger] pre.contains_rec(fl, k, v) implies post.contains_rec(fl, k, v) by {
        if exists|j: int|
            0 <= j < bs.len() && (#[trigger] bs[j]).1.contains_rec((fl - 1) as nat, k, v) {
            let j = choose|j: int|
                0 <= j < bs.len() && (#[trigger] bs[j]).1.contains_rec((fl - 1) as nat, k, v);
            assert(ps[j].1.contains_rec((fl - 1) as nat, k, v));
        }
    }
    assert forall|k: usize, v: usize|
        #[trigger] post.contains_rec(fl, k, v) implies pre.contains_rec(fl, k, v) || (k == key && v
        == value) by {
        if exists|j: int|
            0 <= j < ps.len() && (#[trigger] ps[j]).1.contains_rec((fl - 1) as nat, k, v) {
            let j = choose|j: int|
                0 <= j < ps.len() && (#[trigger] ps[j]).1.contains_rec((fl - 1) as nat, k, v);
            if j == i {
                if bs[i].1.contains_rec((fl - 1) as nat, k, v) {
                    assert(pre.contains_rec(fl, k, v));
                }
            } else {
                assert(bs[j].1.contains_rec((fl - 1) as nat, k, v));
                assert(pre.contains_rec(fl, k, v));
            }
        }
    }
}

/// Appending an empty-child bucket keyed past every existing bucket keeps
/// the level well-formed and reaches exactly the same pairs.
proof fn lemma_ib_append_bucket(pre: InternalBody, post: InternalBody, fl: nat, key: usize)
    requires
        pre.wf_rec(fl),
        fl >= 1,
        pre.buckets().len() < ARRAY_SIZE,
        post.buckets().len() == pre.buckets().len() + 1,
        forall|j: int|
            0 <= j < pre.buckets().len() ==> post.buckets()[j] == pre.buckets()[j],
        post.buckets().last().0 == key,
        post.buckets().last().1.wf_rec((fl - 1) as nat),
        forall|k: usize, v: usize|
            !(#[trigger] post.buckets().last().1.contains_rec((fl - 1) as nat, k, v)),
        post.unbounded() == pre.unbounded(),
        post.staged_low() == pre.staged_low(),
        post.staged_high() == pre.staged_high(),
        forall|j: int| 0 <= j < pre.buckets().len() ==> (#[trigger] pre.buckets()[j]).0 < key,
    ensures
        post.wf_rec(fl),
        forall|k: usize, v: usize|
            #[trigger] post.contains_rec(fl, k, v) == pre.contains_rec(fl, k, v),
{
    let bs = pre.buckets();
    let ps = post.buckets();
    let last = ps.len() - 1;
    assert(pre.unbounded() is None);
    assert(sorted_keys(ps)) by {
        assert forall|a: int, b: int|
            0 <= a < b < ps.len() implies (#[trigger] ps[a]).0 < (#[trigger] ps[b]).0 by {
            if b < last {
                assert(bs[a].0 < bs[b].0);
            } else {
                assert(ps[a].0 == bs[a].0);
            }
        }
    }
    assert forall|j: int|
        0 <= j < ps.len() implies (#[trigger] ps[j]).1.wf_rec((fl - 1) as nat)
            && InternalBody::child_in_range(ps, fl, j) by {
        if j < last {
            assert(bs[j].1.wf_rec((fl - 1) as nat));
            assert(InternalBody::child_in_range(bs, fl, j));
            assert(forall|k: usize, v: usize|
                #[trigger] ps[j].1.contains_rec((fl - 1) as nat, k, v) ==> k <= ps[j].0 && (j > 0
                    ==> k > ps[j - 1].0));
        } else {
            assert(forall|k: usize, v: usize|
                !(#[trigger] ps[j].1.contains_rec((fl - 1) as nat, k, v)));
        }
    }
    assert forall|k: usize, v: usize|
        #[trigger] post.contains_rec(fl, k, v) == pre.contains_rec(fl, k, v) by {
        if pre.contains_rec(fl, k, v) {
            let j = choose|j: int|
                0 <= j < bs.len() && (#[trigger] bs[j]).1.contains_rec((fl - 1) as nat, k, v);
            assert(ps[j].1.contains_rec((fl - 1) as nat, k, v));
        }
        if post.contains_rec(fl, k, v) {
            let j = choose|j: int|
                0 <= j < ps.len() && (#[trigger] ps[j]).1.contains_rec((fl - 1) as nat, k, v);
            assert(j < last);
            assert(bs[j].1.contains_rec((fl - 1) as nat, k, v));
            assert(pre.contains_rec(fl, k, v));
        }
    }
}

/// Replacing the unbounded tail with a well-formed child whose extra content
/// is at most the routed pair (which lies past every bucket) keeps the level
/// well-formed.
proof fn lemma_ib_update_unbounded(
    pre: InternalBody,
    post: InternalBody,
    fl: nat,
    key: usize,
    value: usize,
)
    requires
        pre.wf_rec(fl),
        fl >= 1,
        pre.buckets().len() >= ARRAY_SIZE,
        post.buckets() == pre.buckets(),
        post.staged_low() == pre.staged_low(),
        post.staged_high() == pre.staged_high(),
        post.unbounded() is Some,
        post.unbounded().unwrap().wf_rec((fl - 1) as nat),
        forall|k: usize, v: usize|
            #[trigger] post.unbounded().unwrap().contains_rec((fl - 1) as nat, k, v) ==> (match pre.unbounded() {
                Some(u0) => u0.contains_rec((fl - 1) as nat, k, v),
                None => false,
            } || (k == key && v == value)),
        forall|k: usize, v: usize|
            (match pre.unbounded() {
                Some(u0) => u0.contains_rec((fl - 1) as nat, k, v),
                None => false,
            }) ==> #[trigger] post.unbounded().unwrap().contains_rec((fl - 1) as nat, k, v),
        key > pre.buckets().last().0,
    ensures
        post.wf_rec(fl),
        forall|k: usize, v: usize|
            #[trigger] pre.contains_rec(fl, k, v) ==> post.contains_rec(fl, k, v),
        forall|k: usize, v: usize|
            #[trigger] post.contains_rec(fl, k, v) ==> pre.contains_rec(fl, k, v) || (k == key && v
                == value),
{
    let u = post.unbounded().unwrap();
    assert(pre.buckets().len() == ARRAY_SIZE);
    assert forall|k: usize, v: usize|
        #[trigger] u.contains_rec((fl - 1) as nat, k, v) implies k > post.buckets().last().0 by {
        match pre.unbounded() {
            Some(u0) => {
                if u0.contains_rec((fl - 1) as nat, k, v) {
                } else {
                    assert(k == key);
                }
            },
            None => {
                assert(k == key);
            },
        }
    }
    assert forall|k: usize, v: usize|
        #[trigger] pre.contains_rec(fl, k, v) implies post.contains_rec(fl, k, v) by {
        if exists|j: int|
            0 <= j < pre.buckets().len() && (#[trigger] pre.buckets()[j]).1.contains_rec(
                (fl - 1) as nat,
                k,
                v,
            ) {
        } else {
            let u0 = pre.unbounded().unwrap();
            assert(u0.contains_rec((fl - 1) as nat, k, v));
            assert(u.contains_rec((fl - 1) as nat, k, v));
        }
    }
    assert forall|k: usize, v: usize|
        #[trigger] post.contains_rec(fl, k, v) implies pre.contains_rec(fl, k, v) || (k == key && v
        == value) by {
        if exists|j: int|
            0 <= j < post.buckets().len() && (#[trigger] post.buckets()[j]).1.contains_rec(
                (fl - 1) as nat,
                k,
                v,
            ) {
            assert(pre.contains_rec(fl, k, v));
        } else {
            assert(u.contains_rec((fl - 1) as nat, k, v));
            match pre.unbounded() {
                Some(u0) => {
                    if u0.contains_rec((fl - 1) as nat, k, v) {
                        assert(pre.contains_rec(fl, k, v));
                    }
                },
                None => {},
            }
        }
    }
}

impl InternalBody {
    /// Normalizes a child's outcome at this routing level: success,
    /// `Duplicated` and `Retry` propagate unchanged. A child's `Full` is
    /// absorbed here: the overflowing slot is split, and on a successful
    /// absorb the caller is sent back to the top with `Retry`, to replay
    /// the insert against the reorganized shape; when this level's own
    /// index is the obstacle the `Full` travels further up. No stored pair
    /// is gained or lost by the absorb.
    fn handle_result(
        &mut self,
        floor: usize,
        result: Result<(), Error>,
        full_bucket: Option<usize>,
    ) -> (r: Result<(), Error>)
        requires
            old(self).wf_rec(floor as nat),
            1 <= floor,
            result matches Err(Error::Full(_, _)) ==> (match full_bucket {
                Some(i) => i < old(self).buckets().len() && (floor == 1 ==> old(self).buckets()[
                    i as int
                ].1.leaf_body().buckets().len() >= ARRAY_SIZE),
                None => old(self).unbounded() is Some,
            }),
        ensures
            final(self).wf_rec(floor as nat),
            forall|k: usize, v: usize|
                #[trigger] final(self).contains_rec(floor as nat, k, v) == old(self).contains_rec(
                    floor as nat,
                    k,
                    v,
                ),
            result is Ok ==> r == Ok::<(), Error>(()) && *final(self) == *old(self),
            result matches Err(Error::Duplicated(p)) ==> r == Err::<(), Error>(
                Error::Duplicated(p),
            ) && *final(self) == *old(self),
            result matches Err(Error::Retry(p)) ==> r == Err::<(), Error>(Error::Retry(p))
                && *final(self) == *old(self),
            (r is Ok) == (result is Ok),
            r matches Err(Error::Duplicated(p)) ==> result == Err::<(), Error>(
                Error::Duplicated(p),
            ),
            result matches Err(Error::Full(p, _)) ==> (if old(self).blocked() || floor >= 2 {
                r == Err::<(), Error>(Error::Retry(p))
            } else {
                match full_bucket {
                    Some(i) => r == Err::<(), Error>(
                        Error::Full(p, Some(old(self).buckets()[i as int].0)),
                    ),
                    None => r == Err::<(), Error>(Error::Retry(p)),
                }
            }),
    {
        match &result {
            Ok(_) => Ok(()),
            Err(err) => match err {
                Error::Duplicated(p) => Err(Error::Duplicated(*p)),
                Error::Retry(p) => Err(Error::Retry(*p)),
                Error::Full(p, _) => {
                    let entry: (usize, usize) = *p;
                    match self.split_node(floor, entry, full_bucket) {
                        Ok(()) => Err(Error::Retry(entry)),
                        Err(e2) => Err(e2),
                    }
                },
            },
        }
    }
}

impl InternalBody {
    /// Inserts at a routing level: routes the key to a child and recurses,
    /// lazily granting a never-seen key its own bucket while the index has
    /// room, else falling through to the unbounded child, and folds the
    /// child's outcome through `handle_result`, which absorbs a child's
    /// `Full` by splitting the overflowing slot. Success means the pair is
    /// stored; every error hands the pair back with the level untouched.
    fn insert(&mut self, floor: usize, key: usize, value: usize) -> (r: Result<(), Error>)
        requires
            old(self).wf_rec(floor as nat),
            1 <= floor,
        ensures
            final(self).wf_rec(floor as nat),
            (r == Err::<(), Error>(Error::Duplicated((key, value)))) == old(self).contains_key_rec(
                floor as nat,
                key,
            ),
            r matches Err(Error::Duplicated(p)) ==> p == (key, value),
            r matches Err(Error::Retry(p)) ==> p == (key, value),
            r matches Err(Error::Full(p, _)) ==> p == (key, value),
            r is Ok ==> forall|k: usize, v: usize|
                #[trigger] final(self).contains_rec(floor as nat, k, v) == (old(self).contains_rec(
                    floor as nat,
                    k,
                    v,
                ) || (k == key && v == value)),
            !(r is Ok) ==> forall|k: usize, v: usize|
                #[trigger] final(self).contains_rec(floor as nat, k, v) == old(self).contains_rec(
                    floor as nat,
                    k,
                    v,
                ),
            r is Ok ==> !old(self).contains_key_rec(floor as nat, key),
            r is Ok ==> forall|k: usize, v: usize|
                #[trigger] old(self).contains_rec(floor as nat, k, v) ==> final(self).contains_rec(
                    floor as nat,
                    k,
                    v,
                ),
            r is Ok ==> forall|k: usize, v: usize|
                #[trigger] final(self).contains_rec(floor as nat, k, v) ==> old(self).contains_rec(
                    floor as nat,
                    k,
                    v,
                ) || (k == key && v == value),
        decreases floor, 0int,
    {
        let ghost fl = floor as nat;
        let ghost pre = *self;
        let route: Option<usize>;
        match self.child_min_ge(key) {
            Some(i) => {
                route = Some(i);
            },
            None => {
                if self.bounded_children.len() < ARRAY_SIZE {
                    // a never-seen key past every bucket is granted its own
                    // bucket, with an empty child grown lazily
                    self.bounded_children.push((key, Node::new(floor - 1)));
                    proof {
                        assert(self.buckets().last().0 == key);
                        assert(forall|j: int|
                            0 <= j < pre.buckets().len() ==> self.buckets()[j] == pre.buckets()[j]);
                        lemma_node_pairs_at(self.buckets().last().1, (fl - 1) as nat);
                        assert forall|k2: usize, v2: usize|
                            !(#[trigger] self.buckets().last().1.contains_rec(
                                (fl - 1) as nat,
                                k2,
                                v2,
                            )) by {
                            assert(!self.buckets().last().1.contains_pair(k2, v2));
                        }
                        lemma_ib_append_bucket(pre, *self, fl, key);
                    }
                    route = Some(self.bounded_children.len() - 1);
                } else {
                    route = None;
                }
            },
        }
        let ghost mid = *self;
        proof {
            lemma_num_lt_sorted(mid.buckets(), key);
            lemma_ib_route_unique(mid, fl, key);
            if route is Some {
                let i = route.unwrap() as int;
                assert(i == num_lt(mid.buckets(), key)) by {
                    if i < num_lt(mid.buckets(), key) {
                        assert(mid.buckets()[i].0 < key);
                    }
                    if i > num_lt(mid.buckets(), key) {
                        assert(mid.buckets()[num_lt(mid.buckets(), key)].0 >= key);
                    }
                }
            } else {
                assert(num_lt(mid.buckets(), key) == mid.buckets().len()) by {
                    if num_lt(mid.buckets(), key) < mid.buckets().len() {
                        assert(mid.buckets()[num_lt(mid.buckets(), key)].0 >= key);
                    }
                }
            }
        }
        let res: Result<(), Error>;
        match route {
            Some(i) => {
                let placeholder: Node = Node::new(floor - 1);
                let mut child: Node = self.swap_child(i, placeholder);
                proof {
                    assert(child.wf_rec((fl - 1) as nat));
                    assert(child.floor_of() == floor - 1);
                }
                res = child.insert(key, value);
                let _ = self.swap_child(i, child);
                proof {
                    let cpre = mid.buckets()[i as int].1;
                    let cpost = self.buckets()[i as int].1;
                    assert(cpost.wf_rec((fl - 1) as nat)) by {
                        assert(cpost.floor_of() == floor - 1);
                    }
                    lemma_node_pairs_at(cpre, (fl - 1) as nat);
                    lemma_node_pairs_at(cpost, (fl - 1) as nat);
                    assert forall|k2: usize, v2: usize|
                        #[trigger] cpost.contains_rec((fl - 1) as nat, k2, v2) implies cpre.contains_rec(
                        (fl - 1) as nat,
                        k2,
                        v2,
                    ) || (k2 == key && v2 == value) by {
                        assert(cpost.contains_pair(k2, v2));
                        assert(cpre.contains_pair(k2, v2) || (k2 == key && v2 == value));
                    }
                    assert forall|k2: usize, v2: usize|
                        #[trigger] cpre.contains_rec((fl - 1) as nat, k2, v2) implies cpost.contains_rec(
                        (fl - 1) as nat,
                        k2,
                        v2,
                    ) by {
                        assert(cpre.contains_pair(k2, v2));
                        assert(cpost.contains_pair(k2, v2));
                    }
                    lemma_ib_update_bucket(mid, *self, fl, i as int, key, value);
                    // a duplicate anywhere on this level must sit in the
                    // routed child
                    if mid.contains_key_rec(fl, key) {
                        let v = choose|v: usize| mid.contains_rec(fl, key, v);
                        if exists|j: int|
                            0 <= j < mid.buckets().len() && (#[trigger] mid.buckets()[j]).1.contains_rec(
                                (fl - 1) as nat,
                                key,
                                v,
                            ) {
                            let j = choose|j: int|
                                0 <= j < mid.buckets().len()
                                    && (#[trigger] mid.buckets()[j]).1.contains_rec(
                                    (fl - 1) as nat,
                                    key,
                                    v,
                                );
                            assert(j == i as int);
                            assert(cpre.contains_pair(key, v));
                            assert(cpre.contains_key(key));
                        } else {
                            assert(mid.unbounded() is Some);
                            assert(mid.unbounded().unwrap().contains_rec((fl - 1) as nat, key, v));
                            assert(false);
                        }
                    }
                    if cpre.contains_key(key) {
                        let v = choose|v: usize| cpre.contains_pair(key, v);
                        assert(cpre.contains_rec((fl - 1) as nat, key, v));
                        assert(mid.contains_rec(fl, key, v));
                    }
                    if !(res is Ok) {
                        assert forall|k2: usize, v2: usize|
                            #[trigger] self.contains_rec(fl, k2, v2) == mid.contains_rec(
                            fl,
                            k2,
                            v2,
                        ) by {
                            assert(forall|k3: usize, v3: usize|
                                #[trigger] cpost.contains_rec((fl - 1) as nat, k3, v3)
                                    == cpre.contains_rec((fl - 1) as nat, k3, v3)) by {
                                assert(forall|k3: usize, v3: usize|
                                    #[trigger] cpost.contains_pair(k3, v3) == cpre.contains_pair(
                                        k3,
                                        v3,
                                    ));
                            }
                            if self.contains_rec(fl, k2, v2) {
                                if exists|j: int|
                                    0 <= j < self.buckets().len()
                                        && (#[trigger] self.buckets()[j]).1.contains_rec(
                                        (fl - 1) as nat,
                                        k2,
                                        v2,
                                    ) {
                                    let j = choose|j: int|
                                        0 <= j < self.buckets().len()
                                            && (#[trigger] self.buckets()[j]).1.contains_rec(
                                            (fl - 1) as nat,
                                            k2,
                                            v2,
                                        );
                                    if j == i as int {
                                        assert(cpre.contains_rec((fl - 1) as nat, k2, v2));
                                    }
                                    assert(mid.buckets()[j].1.contains_rec((fl - 1) as nat, k2, v2));
                                }
                            }
                            if mid.contains_rec(fl, k2, v2) {
                                assert(self.contains_rec(fl, k2, v2));
                            }
                        }
                    }
                    // consolidate against the entry state of this level
                    assert(forall|k2: usize, v2: usize|
                        #[trigger] mid.contains_rec(fl, k2, v2) == pre.contains_rec(fl, k2, v2));
                    assert(pre.contains_key_rec(fl, key) == mid.contains_key_rec(fl, key)) by {
                        if pre.contains_key_rec(fl, key) {
                            let v = choose|v: usize| pre.contains_rec(fl, key, v);
                            assert(mid.contains_rec(fl, key, v));
                        }
                        if mid.contains_key_rec(fl, key) {
                            let v = choose|v: usize| mid.contains_rec(fl, key, v);
                            assert(pre.contains_rec(fl, key, v));
                        }
                    }
                    assert((res == Err::<(), Error>(Error::Duplicated((key, value))))
                        == pre.contains_key_rec(fl, key)) by {
                        if res == Err::<(), Error>(Error::Duplicated((key, value))) {
                            assert(cpre.contains_key(key));
                            let v = choose|v: usize| cpre.contains_pair(key, v);
                            assert(cpre.contains_rec((fl - 1) as nat, key, v));
                            assert(mid.contains_rec(fl, key, v));
                            assert(mid.contains_key_rec(fl, key));
                        }
                    }
                    assert forall|k2: usize, v2: usize|
                        #[trigger] pre.contains_rec(fl, k2, v2) implies self.contains_rec(
                        fl,
                        k2,
                        v2,
                    ) by {
                        assert(mid.contains_rec(fl, k2, v2));
                    }
                    assert forall|k2: usize, v2: usize|
                        #[trigger] self.contains_rec(fl, k2, v2) implies pre.contains_rec(
                        fl,
                        k2,
                        v2,
                    ) || (k2 == key && v2 == value) by {
                        assert(mid.contains_rec(fl, k2, v2) || (k2 == key && v2 == value));
                    }
                    if !(res is Ok) {
                        assert(forall|k2: usize, v2: usize|
                            #[trigger] self.contains_rec(fl, k2, v2) == pre.contains_rec(
                                fl,
                                k2,
                                v2,
                            ));
                    }
                    if res is Ok {
                        assert(cpost.contains_pair(key, value));
                        assert(cpost.contains_rec((fl - 1) as nat, key, value));
                        assert(self.contains_rec(fl, key, value));
                        assert(forall|k2: usize, v2: usize|
                            #[trigger] self.contains_rec(fl, k2, v2) == (pre.contains_rec(
                                fl,
                                k2,
                                v2,
                            ) || (k2 == key && v2 == value)));
                    }
                    if res matches Err(Error::Full(_, _)) && floor == 1 {
                        // a terminal-level child reports Full only with its
                        // own bucket index full, and staging leaves it so
                        assert(cpre.is_leaf_node());
                        let pb = cpre.leaf_body();
                        let qb = cpost.leaf_body();
                        assert(qb.buckets().len() >= ARRAY_SIZE) by {
                            assert(!pb.is_dup(key));
                            assert(pb.routed_full(key) && !pb.blocked());
                            match pb.route(key) {
                                Some(i2) => {
                                    assert(pb.buckets().len() >= ARRAY_SIZE);
                                    assert(qb.buckets() == pb.buckets());
                                },
                                None => {
                                    assert(pb.buckets().len() >= ARRAY_SIZE);
                                    assert(qb.buckets() == pb.buckets());
                                },
                            }
                        }
                    }
                }
            },
            None => {
                // the bucket index is full: fall through to the unbounded
                // child, materializing it lazily
                if self.unbounded_child.is_none() {
                    self.unbounded_child = Some(Box::new(Node::new(floor - 1)));
                }
                let ghost mid2 = *self;
                proof {
                    if pre.unbounded() is None {
                        assert(forall|k2: usize, v2: usize|
                            #[trigger] mid2.unbounded().unwrap().contains_rec((fl - 1) as nat, k2, v2)
                                ==> (match mid.unbounded() {
                                Some(u0) => u0.contains_rec((fl - 1) as nat, k2, v2),
                                None => false,
                            } || (k2 == key && v2 == value))) by {
                            lemma_node_pairs_at(*mid2.unbounded().unwrap(), (fl - 1) as nat);
                            assert(forall|k2: usize, v2: usize|
                                !(#[trigger] mid2.unbounded().unwrap().contains_pair(k2, v2)));
                        }
                        lemma_ib_update_unbounded(mid, mid2, fl, key, value);
                        assert forall|k2: usize, v2: usize|
                            #[trigger] mid2.contains_rec(fl, k2, v2) == mid.contains_rec(
                            fl,
                            k2,
                            v2,
                        ) by {
                            if mid2.contains_rec(fl, k2, v2) {
                                if exists|j: int|
                                    0 <= j < mid2.buckets().len()
                                        && (#[trigger] mid2.buckets()[j]).1.contains_rec(
                                        (fl - 1) as nat,
                                        k2,
                                        v2,
                                    ) {
                                } else {
                                    assert(mid2.unbounded().unwrap().contains_rec(
                                        (fl - 1) as nat,
                                        k2,
                                        v2,
                                    ));
                                    assert(!mid2.unbounded().unwrap().contains_pair(k2, v2));
                                    assert(false);
                                }
                            }
                        }
                    }
                }
                let mut u: Box<Node>;
                match self.unbounded_child.take() {
                    Some(b) => {
                        u = b;
                    },
                    None => {
                        proof {
                            assert(false);
                        }
                        u = Box::new(Node::new(floor - 1));
                    },
                }
                proof {
                    assert(u.wf_rec((fl - 1) as nat));
                    assert(u.floor_of() == floor - 1);
                }
                res = (&mut *u).insert(key, value);
                let ghost upost = *u;
                self.unbounded_child = Some(u);
                proof {
                    let upre = mid2.unbounded().unwrap();
                    assert(self.unbounded().unwrap() == upost);
                    lemma_node_pairs_at(*upre, (fl - 1) as nat);
                    lemma_node_pairs_at(upost, (fl - 1) as nat);
                    assert forall|k2: usize, v2: usize|
                        #[trigger] upost.contains_rec((fl - 1) as nat, k2, v2) implies upre.contains_rec(
                        (fl - 1) as nat,
                        k2,
                        v2,
                    ) || (k2 == key && v2 == value) by {
                        assert(upost.contains_pair(k2, v2));
                        assert(upre.contains_pair(k2, v2) || (k2 == key && v2 == value));
                    }
                    assert forall|k2: usize, v2: usize|
                        #[trigger] upre.contains_rec((fl - 1) as nat, k2, v2) implies upost.contains_rec(
                        (fl - 1) as nat,
                        k2,
                        v2,
                    ) by {
                        assert(upre.contains_pair(k2, v2));
                        assert(upost.contains_pair(k2, v2));
                    }
                    lemma_ib_update_unbounded(mid2, *self, fl, key, value);
                    lemma_ib_route_unique(mid2, fl, key);
                    if mid2.contains_key_rec(fl, key) {
                        let v = choose|v: usize| mid2.contains_rec(fl, key, v);
                        if exists|j: int|
                            0 <= j < mid2.buckets().len()
                                && (#[trigger] mid2.buckets()[j]).1.contains_rec(
                                (fl - 1) as nat,
                                key,
                                v,
                            ) {
                            let j = choose|j: int|
                                0 <= j < mid2.buckets().len()
                                    && (#[trigger] mid2.buckets()[j]).1.contains_rec(
                                    (fl - 1) as nat,
                                    key,
                                    v,
                                );
                            assert(false);
                        } else {
                            assert(upre.contains_rec((fl - 1) as nat, key, v));
                            assert(upre.contains_key(key));
                        }
                    }
                    if upre.contains_key(key) {
                        let v = choose|v: usize| upre.contains_pair(key, v);
                        assert(mid2.contains_rec(fl, key, v));
                    }
                    if !(res is Ok) {
                        assert forall|k2: usize, v2: usize|
                            #[trigger] self.contains_rec(fl, k2, v2) == mid2.contains_rec(
                            fl,
                            k2,
                            v2,
                        ) by {
                            assert(forall|k3: usize, v3: usize|
                                #[trigger] upost.contains_rec((fl - 1) as nat, k3, v3)
                                    == upre.contains_rec((fl - 1) as nat, k3, v3)) by {
                                assert(forall|k3: usize, v3: usize|
                                    #[trigger] upost.contains_pair(k3, v3) == upre.contains_pair(
                                        k3,
                                        v3,
                                    ));
                            }
                            if self.contains_rec(fl, k2, v2) {
                                if exists|j: int|
                                    0 <= j < self.buckets().len()
                                        && (#[trigger] self.buckets()[j]).1.contains_rec(
                                        (fl - 1) as nat,
                                        k2,
                                        v2,
                                    ) {
                                } else {
                                    assert(upost.contains_rec((fl - 1) as nat, k2, v2));
                                    assert(upre.contains_rec((fl - 1) as nat, k2, v2));
                                }
                            }
                            if mid2.contains_rec(fl, k2, v2) {
                                assert(self.contains_rec(fl, k2, v2));
                            }
                        }
                    }
                    // consolidate against the entry state of this level
                    assert(forall|k2: usize, v2: usize|
                        #[trigger] mid2.contains_rec(fl, k2, v2) == pre.contains_rec(fl, k2, v2));
                    assert(pre.contains_key_rec(fl, key) == mid2.contains_key_rec(fl, key)) by {
                        if pre.contains_key_rec(fl, key) {
                            let v = choose|v: usize| pre.contains_rec(fl, key, v);
                            assert(mid2.contains_rec(fl, key, v));
                        }
                        if mid2.contains_key_rec(fl, key) {
                            let v = choose|v: usize| mid2.contains_rec(fl, key, v);
                            assert(pre.contains_rec(fl, key, v));
                        }
                    }
                    assert((res == Err::<(), Error>(Error::Duplicated((key, value))))
                        == pre.contains_key_rec(fl, key)) by {
                        if res == Err::<(), Error>(Error::Duplicated((key, value))) {
                            assert(upre.contains_key(key));
                            let v = choose|v: usize| upre.contains_pair(key, v);
                            assert(upre.contains_rec((fl - 1) as nat, key, v));
                            assert(mid2.contains_rec(fl, key, v));
                            assert(mid2.contains_key_rec(fl, key));
                        }
                    }
                    assert forall|k2: usize, v2: usize|
                        #[trigger] pre.contains_rec(fl, k2, v2) implies self.contains_rec(
                        fl,
                        k2,
                        v2,
                    ) by {
                        assert(mid2.contains_rec(fl, k2, v2));
                    }
                    assert forall|k2: usize, v2: usize|
                        #[trigger] self.contains_rec(fl, k2, v2) implies pre.contains_rec(
                        fl,
                        k2,
                        v2,
                    ) || (k2 == key && v2 == value) by {
                        assert(mid2.contains_rec(fl, k2, v2) || (k2 == key && v2 == value));
                    }
                    if !(res is Ok) {
                        assert(forall|k2: usize, v2: usize|
                            #[trigger] self.contains_rec(fl, k2, v2) == pre.contains_rec(
                                fl,
                                k2,
                                v2,
                            ));
                    }
                    if res is Ok {
                        assert(upost.contains_pair(key, value));
                        assert(upost.contains_rec((fl - 1) as nat, key, value));
                        assert(self.contains_rec(fl, key, value));
                        assert(forall|k2: usize, v2: usize|
                            #[trigger] self.contains_rec(fl, k2, v2) == (pre.contains_rec(
                                fl,
                                k2,
                                v2,
                            ) || (k2 == key && v2 == value)));
                    }
                }
            },
        }
        let ghost atcall = *self;
        let r = self.handle_result(floor, res, route);
        proof {
            // the absorb step moves no stored pair, so every relation to the
            // entry state carries over
            assert forall|k2: usize, v2: usize|
                #[trigger] self.contains_rec(fl, k2, v2) == atcall.contains_rec(fl, k2, v2) by {}
            if !(r is Ok) {
                assert forall|k2: usize, v2: usize|
                    #[trigger] self.contains_rec(fl, k2, v2) == pre.contains_rec(fl, k2, v2) by {
                    assert(atcall.contains_rec(fl, k2, v2) == pre.contains_rec(fl, k2, v2));
                }
            }
            if r is Ok {
                assert forall|k2: usize, v2: usize|
                    #[trigger] self.contains_rec(fl, k2, v2) == (pre.contains_rec(fl, k2, v2) || (
                    k2 == key && v2 == value)) by {
                    assert(atcall.contains_rec(fl, k2, v2) == (pre.contains_rec(fl, k2, v2) || (k2
                        == key && v2 == value)));
                }
            }
        }
        r
    }
}

/// Some data pair is stored under one of the buckets.
pub open spec fn buckets_store(bs: Seq<(usize, Leaf<usize>)>, k: usize, v: usize) -> bool {
    exists|b2: int| 0 <= b2 < bs.len() && has_entry((#[trigger] bs[b2]).1@, k, v)
}

/// If the low half holds the first `hstart` buckets verbatim and every
/// later bucket survives somewhere in the high half, then together the two
/// halves cover every data pair stored under the original buckets.
proof fn lemma_redistribution_covers(
    child_bs: Seq<(usize, Leaf<usize>)>,
    lo_bs: Seq<(usize, Leaf<usize>)>,
    hi_bs: Seq<(usize, Leaf<usize>)>,
    hc0: Seq<(usize, Leaf<usize>)>,
    hstart: int,
)
    requires
        0 <= hstart <= child_bs.len(),
        lo_bs.len() == hstart,
        forall|j: int| 0 <= j < hstart ==> (#[trigger] lo_bs[j]).1@ == child_bs[j].1@,
        hc0.len() == child_bs.len() - hstart,
        forall|b2: int| 0 <= b2 < hc0.len() ==> (#[trigger] hc0[b2]).1@ == child_bs[b2 + hstart].1@,
        forall|b2: int|
            0 <= b2 < hc0.len() ==> exists|b3: int|
                0 <= b3 < hi_bs.len() && hi_bs[b3] == #[trigger] hc0[b2],
    ensures
        forall|j: int, l: int|
            0 <= j < child_bs.len() && 0 <= l < child_bs[j].1@.len() ==> buckets_store(
                lo_bs,
                (#[trigger] child_bs[j].1@[l]).0,
                child_bs[j].1@[l].1,
            ) || buckets_store(hi_bs, child_bs[j].1@[l].0, child_bs[j].1@[l].1),
{
    assert forall|j: int, l: int|
        0 <= j < child_bs.len() && 0 <= l < child_bs[j].1@.len() implies buckets_store(
        lo_bs,
        (#[trigger] child_bs[j].1@[l]).0,
        child_bs[j].1@[l].1,
    ) || buckets_store(hi_bs, child_bs[j].1@[l].0, child_bs[j].1@[l].1) by {
        let dk = child_bs[j].1@[l].0;
        let dv = child_bs[j].1@[l].1;
        if j < hstart {
            assert(has_entry(lo_bs[j].1@, dk, dv));
        } else {
            assert(hc0[j - hstart].1@ == child_bs[j].1@);
            let b3 = choose|b3: int| 0 <= b3 < hi_bs.len() && hi_bs[b3] == hc0[j - hstart];
            assert(has_entry(hi_bs[b3].1@, dk, dv));
        }
    }
}

/// Distributes a full terminal-level child's buckets into two fresh bucket
/// arrays, the first half and then the rest, a bucket keyed at the split
/// boundary carrying the child's staged leaves instead of its own; for an
/// unbounded-slot child the staged pair rides along at the end, the low
/// half as a bucket and the high half as the tail. Returns the two arrays,
/// the tail, and the two distribution counts.
#[verifier::rlimit(100)]
#[verifier::spinoff_prover]
fn redistribute_child(full_body: &LeafBody, boundary_key: Option<usize>) -> (r: (
    Leaf<Leaf<usize>>,
    Leaf<Leaf<usize>>,
    Option<Leaf<usize>>,
    usize,
    usize,
))
    requires
        full_body.wf(),
    ensures
        r.0.wf(),
        r.1.wf(),
        boundary_key is Some && full_body.buckets().len() >= ARRAY_SIZE ==> r.4 > 0,
        boundary_key is None ==> (forall|j: int, l: int|
            0 <= j < full_body.buckets().len() && 0 <= l < full_body.buckets()[j].1@.len()
                ==> buckets_store(
                r.0@,
                (#[trigger] full_body.buckets()[j].1@[l]).0,
                full_body.buckets()[j].1@[l].1,
            ) || buckets_store(r.1@, full_body.buckets()[j].1@[l].0, full_body.buckets()[j].1@[l].1)),
        boundary_key is None ==> (full_body.staged_high() matches Some(sh) ==> r.2 matches Some(t)
            && t@ == sh@),
{
        let mut low_children: Leaf<Leaf<usize>> = Leaf::new();
        let mut high_children: Leaf<Leaf<usize>> = Leaf::new();
        let mut high_tail: Option<Leaf<usize>> = None;
        let n: usize = full_body.bounded_children.len();
        let mut idx: usize = 0;
        let mut d0: usize = 0;
        let mut d1: usize = 0;
        let ghost bs = full_body.buckets();
        let ghost mk = boundary_key;
        let ghost mut bdone: bool = false;
        while idx < n
            invariant_except_break
                d0 <= ARRAY_SIZE / 2,
            invariant
                idx <= n,
                n == bs.len(),
                n <= ARRAY_SIZE,
                d0 <= ARRAY_SIZE / 2 + 2,
                idx <= d0 + if bdone {
                    1int
                } else {
                    0int
                },
                mk == boundary_key,
                mk is None ==> !bdone && d0 == idx && idx <= ARRAY_SIZE / 2 + 1
                    && low_children@.len() == idx && (forall|j: int|
                    0 <= j < idx ==> (#[trigger] low_children@[j]).0 == bs[j].0
                        && low_children@[j].1@ == bs[j].1@),
                low_children.wf(),
                full_body.buckets() == bs,
                full_body.wf(),
                bdone ==> (forall|j: int|
                    idx <= j < n ==> (#[trigger] bs[j]).0 > mk.unwrap()),
                sorted_keys(bs),
            ensures
                mk is None ==> idx == n || idx >= ARRAY_SIZE / 2 + 1,
            decreases n - idx,
        {
            let k: usize = full_body.bounded_children.key_at(idx);
            let is_boundary: bool = match boundary_key {
                Some(b) => b == k,
                None => false,
            };
            if is_boundary {
                proof {
                    assert(bs[idx as int].0 == mk.unwrap());
                    assert(!bdone) by {
                        if bdone {
                            assert(bs[idx as int].0 > mk.unwrap());
                        }
                    }
                    assert(forall|j: int| idx < j < n ==> (#[trigger] bs[j]).0 > bs[idx as int].0);
                    bdone = true;
                }
                match &full_body.reserved_low_key {
                    Some(rl) => {
                        let rk: usize = match rl.max_key() {
                            Some(x) => x,
                            None => {
                                proof {
                                    assert(false);
                                }
                                0
                            },
                        };
                        let _ = low_children.insert(rk, rl.duplicate());
                        d0 = d0 + 1;
                    },
                    None => {},
                }
                match &full_body.reserved_high_key {
                    Some(rh) => {
                        let rk: usize = match rh.max_key() {
                            Some(x) => x,
                            None => {
                                proof {
                                    assert(false);
                                }
                                0
                            },
                        };
                        let _ = low_children.insert(rk, rh.duplicate());
                        d0 = d0 + 1;
                    },
                    None => {},
                }
                idx = idx + 1;
                if d0 > ARRAY_SIZE / 2 {
                    break ;
                }
                continue ;
            }
            let copy: Leaf<usize> = full_body.bounded_children.value_at(idx).duplicate();
            proof {
                if mk is None {
                    // fresh maximal key: this bucket is appended verbatim
                    assert(!has_key(low_children@, k)) by {
                        if has_key(low_children@, k) {
                            let w = choose|w: int|
                                0 <= w < low_children@.len() && (#[trigger] low_children@[w]).0
                                    == k;
                            assert(bs[w].0 < bs[idx as int].0);
                        }
                    }
                    lemma_num_lt_sorted(low_children@, k);
                    assert(num_lt(low_children@, k) == low_children@.len()) by {
                        if num_lt(low_children@, k) < low_children@.len() {
                            assert(low_children@[num_lt(low_children@, k)].0 >= k);
                            assert(bs[num_lt(low_children@, k)].0 < bs[idx as int].0);
                        }
                    }
                }
            }
            let _ = low_children.insert(k, copy);
            proof {
                if mk is None {
                    assert(forall|j: int|
                        0 <= j < idx + 1 ==> (#[trigger] low_children@[j]).0 == bs[j].0
                            && low_children@[j].1@ == bs[j].1@);
                }
            }
            d0 = d0 + 1;
            idx = idx + 1;
            if d0 > ARRAY_SIZE / 2 {
                break ;
            }
        }
        let ghost hstart = idx as int;
        proof {
            assert(hstart <= ARRAY_SIZE / 2 + 3);
            assert(mk is None ==> hstart == n || hstart >= ARRAY_SIZE / 2 + 1);
        }
        while idx < n
            invariant
                hstart <= idx <= n,
                n == bs.len(),
                n <= ARRAY_SIZE,
                idx <= d1 + hstart + if bdone {
                    1int
                } else {
                    0int
                },
                d1 <= 2 * idx,
                mk == boundary_key,
                mk is None ==> !bdone && (hstart == n || hstart >= ARRAY_SIZE / 2 + 1)
                    && high_children@.len() + hstart == idx && (forall|b2: int|
                    0 <= b2 < high_children@.len() ==> (#[trigger] high_children@[b2]).0 == bs[b2
                        + hstart].0 && high_children@[b2].1@ == bs[b2 + hstart].1@),
                high_children.wf(),
                full_body.buckets() == bs,
                full_body.wf(),
                bdone ==> (forall|j: int|
                    idx <= j < n ==> (#[trigger] bs[j]).0 > mk.unwrap()),
                sorted_keys(bs),
            decreases n - idx,
        {
            let k: usize = full_body.bounded_children.key_at(idx);
            let is_boundary: bool = match boundary_key {
                Some(b) => b == k,
                None => false,
            };
            if is_boundary {
                proof {
                    assert(bs[idx as int].0 == mk.unwrap());
                    assert(!bdone) by {
                        if bdone {
                            assert(bs[idx as int].0 > mk.unwrap());
                        }
                    }
                    assert(forall|j: int| idx < j < n ==> (#[trigger] bs[j]).0 > bs[idx as int].0);
                    bdone = true;
                }
                match &full_body.reserved_low_key {
                    Some(rl) => {
                        let rk: usize = match rl.max_key() {
                            Some(x) => x,
                            None => {
                                proof {
                                    assert(false);
                                }
                                0
                            },
                        };
                        let _ = high_children.insert(rk, rl.duplicate());
                        d1 = d1 + 1;
                    },
                    None => {},
                }
                match &full_body.reserved_high_key {
                    Some(rh) => {
                        let rk: usize = match rh.max_key() {
                            Some(x) => x,
                            None => {
                                proof {
                                    assert(false);
                                }
                                0
                            },
                        };
                        let _ = high_children.insert(rk, rh.duplicate());
                        d1 = d1 + 1;
                    },
                    None => {},
                }
                idx = idx + 1;
                continue ;
            }
            let copy: Leaf<usize> = full_body.bounded_children.value_at(idx).duplicate();
            proof {
                if mk is None {
                    assert(!has_key(high_children@, k)) by {
                        if has_key(high_children@, k) {
                            let w = choose|w: int|
                                0 <= w < high_children@.len() && (#[trigger] high_children@[w]).0
                                    == k;
                            assert(bs[w + hstart].0 < bs[idx as int].0);
                        }
                    }
                    lemma_num_lt_sorted(high_children@, k);
                    assert(num_lt(high_children@, k) == high_children@.len()) by {
                        if num_lt(high_children@, k) < high_children@.len() {
                            assert(high_children@[num_lt(high_children@, k)].0 >= k);
                            assert(bs[num_lt(high_children@, k) + hstart].0 < bs[idx as int].0);
                        }
                    }
                    assert(high_children@.len() < ARRAY_SIZE);
                }
            }
            let _ = high_children.insert(k, copy);
            proof {
                if mk is None {
                    assert(forall|b2: int|
                        0 <= b2 < high_children@.len() ==> (#[trigger] high_children@[b2]).0 == bs[
                            b2 + hstart].0 && high_children@[b2].1@ == bs[b2 + hstart].1@);
                }
            }
            d1 = d1 + 1;
            idx = idx + 1;
        }
        let ghost lc0 = low_children@;
        let ghost hc0 = high_children@;
        if boundary_key.is_none() {
            // an unbounded-slot child: the staged pair becomes the tail
            // node's content, the low leaf as a bucket, the high leaf as the
            // new tail
            match &full_body.reserved_low_key {
                Some(rl) => {
                    let rk: usize = match rl.max_key() {
                        Some(x) => x,
                        None => {
                            proof {
                                assert(false);
                            }
                            0
                        },
                    };
                    let carry = high_children.insert(rk, rl.duplicate());
                    proof {
                        // every bucket placed so far survives the carry
                        assert forall|b2: int| 0 <= b2 < hc0.len() implies exists|b3: int|
                            0 <= b3 < high_children@.len() && high_children@[b3] == #[trigger] hc0[
                            b2] by {
                            if carry is None {
                                let pos = num_lt(hc0, rk);
                                lemma_num_lt_bounds(hc0, rk);
                                if b2 < pos {
                                    assert(high_children@[b2] == hc0[b2]);
                                } else {
                                    assert(high_children@[b2 + 1] == hc0[b2]);
                                }
                            } else {
                                assert(high_children@ == hc0);
                                assert(high_children@[b2] == hc0[b2]);
                            }
                        }
                    }
                    d1 = d1 + 1;
                },
                None => {
                    proof {
                        assert forall|b2: int| 0 <= b2 < hc0.len() implies exists|b3: int|
                            0 <= b3 < high_children@.len() && high_children@[b3] == #[trigger] hc0[
                            b2] by {
                            assert(high_children@[b2] == hc0[b2]);
                        }
                    }
                },
            }
            proof {
                if mk is None {
                    lemma_redistribution_covers(bs, low_children@, high_children@, hc0, hstart);
                }
            }
            match &full_body.reserved_high_key {
                Some(rh) => {
                    high_tail = Some(rh.duplicate());
                    d1 = d1 + 1;
                },
                None => {},
            }
        }
        proof {
            if mk is Some && n >= ARRAY_SIZE {
                assert(hstart <= ARRAY_SIZE / 2 + 3);
                assert(d1 + hstart + 1 >= n);
            }
        }
        (low_children, high_children, high_tail, d0, d1)
    }


impl InternalBody {
    /// A split is already staged on this routing level.
    pub open spec fn blocked(self) -> bool {
        self.staged_low() is Some || self.staged_high() is Some
    }

    /// Adds a routing bucket. `None` means it went in; otherwise the pair
    /// comes back with `true` when the key was already present and `false`
    /// when the index is full.
    fn insert_child(&mut self, key: usize, node: Node) -> (r: Option<((usize, Node), bool)>)
        requires
            sorted_keys(old(self).buckets()),
            old(self).buckets().len() <= ARRAY_SIZE,
        ensures
            final(self).unbounded() == old(self).unbounded(),
            final(self).staged_low() == old(self).staged_low(),
            final(self).staged_high() == old(self).staged_high(),
            has_key(old(self).buckets(), key) ==> r == Some(((key, node), true))
                && final(self).buckets() == old(self).buckets(),
            !has_key(old(self).buckets(), key) && old(self).buckets().len() >= ARRAY_SIZE ==> r
                == Some(((key, node), false)) && final(self).buckets() == old(self).buckets(),
            !has_key(old(self).buckets(), key) && old(self).buckets().len() < ARRAY_SIZE ==> r
                is None && final(self).buckets() == sorted_insert(old(self).buckets(), key, node),
    {
        let pos: usize;
        match self.child_min_ge(key) {
            Some(i) => {
                if self.bounded_children[i].0 == key {
                    proof {
                        assert(has_key(self.buckets(), key));
                    }
                    return Some(((key, node), true));
                }
                pos = i;
            },
            None => {
                pos = self.bounded_children.len();
            },
        }
        proof {
            assert(!has_key(self.buckets(), key)) by {
                if has_key(self.buckets(), key) {
                    let w = choose|w: int|
                        0 <= w < self.buckets().len() && (#[trigger] self.buckets()[w]).0 == key;
                    assert(w >= pos);
                    assert(pos < self.buckets().len());
                    if w > pos {
                        assert(self.buckets()[pos as int].0 < self.buckets()[w].0);
                    }
                }
            }
        }
        if self.bounded_children.len() >= ARRAY_SIZE {
            return Some(((key, node), false));
        }
        proof {
            lemma_num_lt_sorted(self.buckets(), key);
            assert(pos == num_lt(self.buckets(), key)) by {
                if pos < num_lt(self.buckets(), key) {
                    assert(self.buckets()[pos as int].0 < key);
                }
                if pos > num_lt(self.buckets(), key) {
                    assert(self.buckets()[num_lt(self.buckets(), key)].0 >= key);
                }
            }
        }
        self.bounded_children.insert(pos, (key, node));
        None
    }

    /// The staged split protocol one level up: redistributes a full child's
    /// routing buckets instead of data entries. Claims the two staging slots
    /// (backing off with `Retry` when either is taken). A full child that is
    /// itself a routing level is not redistributed: the claim stays in place
    /// and the caller backs off with `Retry`. A terminal-level child's
    /// buckets move in order into two fresh nodes, a bucket caught mid-split
    /// contributing its staged leaves in place of its own; re-linking a
    /// bounded slot reports `Full` upward with that slot's upper bound, and
    /// an unbounded-slot overflow keeps the halves staged and succeeds.
    #[verifier::rlimit(100)]
    #[verifier::spinoff_prover]
    fn split_node(&mut self, floor: usize, entry: (usize, usize), full_bucket: Option<usize>) -> (r:
        Result<(), Error>)
        requires
            old(self).wf_rec(floor as nat),
            1 <= floor,
            match full_bucket {
                Some(i) => i < old(self).buckets().len() && (floor == 1 ==> old(self).buckets()[
                    i as int
                ].1.leaf_body().buckets().len() >= ARRAY_SIZE),
                None => old(self).unbounded() is Some,
            },
        ensures
            final(self).wf_rec(floor as nat),
            forall|k: usize, v: usize|
                #[trigger] final(self).contains_rec(floor as nat, k, v) == old(self).contains_rec(
                    floor as nat,
                    k,
                    v,
                ),
            old(self).blocked() ==> r == Err::<(), Error>(Error::Retry(entry)) && *final(self)
                == *old(self),
            r matches Err(Error::Retry(p)) ==> p == entry,
            r matches Err(Error::Full(p, b)) ==> p == entry && full_bucket is Some && b == Some(
                old(self).buckets()[full_bucket.unwrap() as int].0,
            ),
            !old(self).blocked() && floor >= 2 ==> r == Err::<(), Error>(Error::Retry(entry)),
            !old(self).blocked() && floor == 1 ==> (match full_bucket {
                Some(i) => r == Err::<(), Error>(
                    Error::Full(entry, Some(old(self).buckets()[i as int].0)),
                ),
                None => r == Ok::<(), Error>(()),
            }),
            !old(self).blocked() && floor == 1 ==> (final(self).staged_low() matches Some(lo)
                && lo.is_leaf_node()) && (final(self).staged_high() matches Some(hi)
                && hi.is_leaf_node()),
            // redistribution of an unbounded-slot child covers its buckets:
            // every data pair stored under one of them reappears under a
            // staged half, and the child's own staged tail half becomes the
            // high half's tail
            !old(self).blocked() && floor == 1 && full_bucket is None ==> ({
                let child = old(self).unbounded().unwrap().leaf_body();
                let lo = final(self).staged_low().unwrap().leaf_body();
                let hi = final(self).staged_high().unwrap().leaf_body();
                &&& (forall|j: int, l: int|
                    0 <= j < child.buckets().len() && 0 <= l < child.buckets()[j].1@.len()
                        ==> lo.contains_pair(
                        (#[trigger] child.buckets()[j].1@[l]).0,
                        child.buckets()[j].1@[l].1,
                    ) || hi.contains_pair(child.buckets()[j].1@[l].0, child.buckets()[j].1@[l].1))
                &&& (child.staged_high() matches Some(sh) ==> hi.unbounded() matches Some(t) && t@
                    == sh@)
            }),
    {
        if self.reserved_low_key.is_some() || self.reserved_high_key.is_some() {
            // a split is already staged on this node: back off and let the
            // caller replay the whole insert from the top
            return Err(Error::Retry(entry));
        }
        if floor >= 2 {
            // the full child is itself a routing level; redistribution stops
            // here and the claim stays in place
            self.reserved_low_key = Some(Box::new(Node::new(floor - 1)));
            self.reserved_high_key = Some(Box::new(Node::new(floor - 1)));
            return Err(Error::Retry(entry));
        }
        let full_body: &LeafBody;
        match full_bucket {
            Some(i) => {
                match &self.bounded_children[i].1.entry {
                    NodeType::LeafNode(b) => {
                        full_body = b;
                    },
                    NodeType::InternalNode(_) => {
                        proof {
                            assert(self.buckets()[i as int].1.wf_rec(0));
                            assert(false);
                        }
                        return Err(Error::Retry(entry));
                    },
                }
                proof {
                    assert(*full_body == self.buckets()[i as int].1.leaf_body());
                    assert(self.buckets()[i as int].1.wf_rec(0));
                }
            },
            None => {
                match &self.unbounded_child {
                    Some(u) => {
                        match &u.entry {
                            NodeType::LeafNode(b) => {
                                full_body = b;
                            },
                            NodeType::InternalNode(_) => {
                                proof {
                                    assert(u.wf_rec(0));
                                    assert(false);
                                }
                                return Err(Error::Retry(entry));
                            },
                        }
                    },
                    None => {
                        proof {
                            assert(false);
                        }
                        return Err(Error::Retry(entry));
                    },
                }
            },
        }
        // distribute the child's buckets, the first half and then the rest,
        // a bucket keyed at the split boundary carrying its staged leaves
        // instead of its own
        let boundary_key: Option<usize> = match full_bucket {
            Some(i) => Some(self.bounded_children[i].0),
            None => None,
        };
        let ghost child_b = *full_body;
        let parts = redistribute_child(full_body, boundary_key);
        let low_children: Leaf<Leaf<usize>> = parts.0;
        let high_children: Leaf<Leaf<usize>> = parts.1;
        let high_tail: Option<Leaf<usize>> = parts.2;
        let d1: usize = parts.4;
        let ghost lcv = low_children@;
        let ghost hcv = high_children@;
        let low_node: Node = Node {
            entry: NodeType::LeafNode(
                LeafBody {
                    bounded_children: low_children,
                    unbounded_child: None,
                    reserved_low_key: None,
                    reserved_high_key: None,
                },
            ),
            floor: 0,
        };
        let high_node: Node = Node {
            entry: NodeType::LeafNode(
                LeafBody {
                    bounded_children: high_children,
                    unbounded_child: high_tail,
                    reserved_low_key: None,
                    reserved_high_key: None,
                },
            ),
            floor: 0,
        };
        match full_bucket {
            None => {
                // no routing entry can change at this level for the
                // unbounded slot; the halves stay staged
                let ghost lo_b = low_node.leaf_body();
                let ghost hi_b = high_node.leaf_body();
                self.reserved_low_key = Some(Box::new(low_node));
                self.reserved_high_key = Some(Box::new(high_node));
                proof {
                    let child = old(self).unbounded().unwrap().leaf_body();
                    assert(child == child_b);
                    assert(lo_b.buckets() == lcv);
                    assert(hi_b.buckets() == hcv);
                    assert forall|j: int, l: int|
                        0 <= j < child.buckets().len() && 0 <= l < child.buckets()[j].1@.len() implies lo_b.contains_pair(
                        (#[trigger] child.buckets()[j].1@[l]).0,
                        child.buckets()[j].1@[l].1,
                    ) || hi_b.contains_pair(
                        child.buckets()[j].1@[l].0,
                        child.buckets()[j].1@[l].1,
                    ) by {
                        let dk = child.buckets()[j].1@[l].0;
                        let dv = child.buckets()[j].1@[l].1;
                        assert(child_b.buckets()[j].1@[l].0 == dk);
                        assert(buckets_store(lcv, dk, dv) || buckets_store(hcv, dk, dv));
                        if buckets_store(lcv, dk, dv) {
                            let b2 = choose|b2: int|
                                0 <= b2 < lcv.len() && has_entry((#[trigger] lcv[b2]).1@, dk, dv);
                            assert(has_entry(lo_b.buckets()[b2].1@, dk, dv));
                            assert(lo_b.contains_pair(dk, dv));
                        } else {
                            let b2 = choose|b2: int|
                                0 <= b2 < hcv.len() && has_entry((#[trigger] hcv[b2]).1@, dk, dv);
                            assert(has_entry(hi_b.buckets()[b2].1@, dk, dv));
                            assert(hi_b.contains_pair(dk, dv));
                        }
                    }
                    match child.staged_high() {
                        Some(sh) => {
                            assert(hi_b.unbounded() is Some && hi_b.unbounded().unwrap()@ == sh@);
                        },
                        None => {},
                    }
                }
                return Ok(());
            },
            Some(i) => {
                let bucket_key: usize = self.bounded_children[i].0;
                if d1 == 0 {
                    proof {
                        assert(child_b.buckets().len() >= ARRAY_SIZE);
                        assert(false);
                    }
                    // degenerate redistribution: everything fits the low
                    // node, which replaces the full child directly
                    let _ = self.swap_child(i, low_node);
                    return Ok(());
                }
                match self.insert_child(bucket_key, low_node) {
                    Some((pair, _)) => {
                        // the routing index cannot take the new bucket under
                        // the same upper bound: stage the halves and report
                        // upward
                        proof {
                            assert(has_key(self.buckets(), bucket_key));
                        }
                        self.reserved_low_key = Some(Box::new(pair.1));
                        self.reserved_high_key = Some(Box::new(high_node));
                        return Err(Error::Full(entry, Some(bucket_key)));
                    },
                    None => {
                        proof {
                            assert(has_key(old(self).buckets(), bucket_key));
                            assert(false);
                        }
                        // the full child moved one slot up; hand that slot
                        // the high node
                        let _ = self.swap_child(i + 1, high_node);
                        return Ok(());
                    },
                }
            },
        }
    }

    fn child_at(&self, i: usize) -> (r: &Node)
        requires
            i < self.buckets().len(),
        ensures
            *r == self.buckets()[i as int].1,
    {
        &self.bounded_children[i].1
    }
}

impl Node {
    /// Top-down point search: routes through each level's bucket locator and
    /// confirms an exact match in the terminal leaf. Returns a positioned
    /// cursor exactly when the key is stored; its current entry carries the
    /// key and the stored value.
    pub fn search(&self, key: usize) -> (r: Option<LeafNodeScanner>)
        requires
            self.wf(),
        ensures
            (r is Some) == self.contains_key(key),
            r matches Some(sc) ==> sc.current_spec() matches Some(p) && p.0 == key
                && self.contains_pair(key, p.1),
            r matches Some(sc) ==> self.is_leaf_node() ==> sc.inv(*self),
        decreases self.floor_of(),
    {
        let ghost fl = self.floor_of() as nat;
        match &self.entry {
            NodeType::LeafNode(body) => {
                proof {
                    assert(self.leaf_body() == *body);
                    lemma_dup_iff_contains(*body, key);
                    lemma_num_lt_sorted(body.buckets(), key);
                    assert(self.contains_key(key) == body.contains_key(key)) by {
                        if self.contains_key(key) {
                            let v = choose|v: usize| self.contains_pair(key, v);
                            assert(body.contains_pair(key, v));
                        }
                        if body.contains_key(key) {
                            let v = choose|v: usize| body.contains_pair(key, v);
                            assert(self.contains_pair(key, v));
                        }
                    }
                }
                match body.bounded_children.min_ge(key) {
                    Some(i) => {
                        proof {
                            let bs = body.buckets();
                            assert(i as int == num_lt(bs, key)) by {
                                if (i as int) < num_lt(bs, key) {
                                    assert(bs[i as int].0 < key);
                                }
                                if (i as int) > num_lt(bs, key) {
                                    assert(bs[num_lt(bs, key)].0 >= key);
                                }
                            }
                            assert(body.route(key) == Some(i as int));
                            assert(bs[i as int].1.wf());
                        }
                        let leaf: &Leaf<usize> = body.bounded_children.value_at(i);
                        let found: Option<usize> = leaf.min_ge(key);
                        match found {
                            Some(j) => {
                                if leaf.key_at(j) == key {
                                    let v: usize = *leaf.value_at(j);
                                    proof {
                                        assert(leaf@[j as int] == (key, v));
                                        assert(has_entry(body.buckets()[i as int].1@, key, v));
                                        assert(body.contains_pair(key, v));
                                        assert(self.contains_pair(key, v));
                                    }
                                    Some(
                                        LeafNodeScanner {
                                            in_unbounded: false,
                                            bucket: i,
                                            pos: j,
                                            started: true,
                                            done: false,
                                            single_leaf: true,
                                            current: Some((key, v)),
                                        },
                                    )
                                } else {
                                    proof {
                                        assert(!has_key(leaf@, key)) by {
                                            if has_key(leaf@, key) {
                                                let w = choose|w: int|
                                                    0 <= w < leaf@.len() && (#[trigger] leaf@[w]).0
                                                        == key;
                                                assert(w >= j);
                                                if w > j as int {
                                                    assert(leaf@[j as int].0 < leaf@[w].0);
                                                }
                                            }
                                        }
                                        assert(!body.is_dup(key));
                                    }
                                    None
                                }
                            },
                            None => {
                                proof {
                                    assert(!has_key(leaf@, key)) by {
                                        if has_key(leaf@, key) {
                                            let w = choose|w: int|
                                                0 <= w < leaf@.len() && (#[trigger] leaf@[w]).0
                                                    == key;
                                        }
                                    }
                                    assert(!body.is_dup(key));
                                }
                                None
                            },
                        }
                    },
                    None => {
                        proof {
                            let bs = body.buckets();
                            assert(num_lt(bs, key) == bs.len()) by {
                                if num_lt(bs, key) < bs.len() {
                                    assert(bs[num_lt(bs, key)].0 >= key);
                                }
                            }
                            assert(body.route(key) is None);
                        }
                        match &body.unbounded_child {
                            Some(u) => {
                                let found: Option<usize> = u.min_ge(key);
                                match found {
                                    Some(j) => {
                                        if u.key_at(j) == key {
                                            let v: usize = *u.value_at(j);
                                            proof {
                                                assert(u@[j as int] == (key, v));
                                                assert(has_entry(u@, key, v));
                                                assert(body.contains_pair(key, v));
                                                assert(self.contains_pair(key, v));
                                            }
                                            Some(
                                                LeafNodeScanner {
                                                    in_unbounded: true,
                                                    bucket: 0,
                                                    pos: j,
                                                    started: true,
                                                    done: false,
                                                    single_leaf: true,
                                                    current: Some((key, v)),
                                                },
                                            )
                                        } else {
                                            proof {
                                                assert(!has_key(u@, key)) by {
                                                    if has_key(u@, key) {
                                                        let w = choose|w: int|
                                                            0 <= w < u@.len() && (
                                                            #[trigger] u@[w]).0 == key;
                                                        assert(w >= j);
                                                        if w > j as int {
                                                            assert(u@[j as int].0 < u@[w].0);
                                                        }
                                                    }
                                                }
                                                assert(!body.is_dup(key));
                                            }
                                            None
                                        }
                                    },
                                    None => {
                                        proof {
                                            assert(!has_key(u@, key)) by {
                                                if has_key(u@, key) {
                                                    let w = choose|w: int|
                                                        0 <= w < u@.len() && (#[trigger] u@[w]).0
                                                            == key;
                                                }
                                            }
                                            assert(!body.is_dup(key));
                                        }
                                        None
                                    },
                                }
                            },
                            None => {
                                proof {
                                    assert(!body.is_dup(key));
                                }
                                None
                            },
                        }
                    },
                }
            },
            NodeType::InternalNode(body) => {
                proof {
                    assert(self.internal_body() == *body);
                    assert(body.wf_rec(fl));
                    lemma_ib_route_unique(*body, fl, key);
                    lemma_num_lt_sorted(body.buckets(), key);
                }
                match body.child_min_ge(key) {
                    Some(i) => {
                        proof {
                            let bs = body.buckets();
                            assert(i as int == num_lt(bs, key)) by {
                                if (i as int) < num_lt(bs, key) {
                                    assert(bs[i as int].0 < key);
                                }
                                if (i as int) > num_lt(bs, key) {
                                    assert(bs[num_lt(bs, key)].0 >= key);
                                }
                            }
                            assert(bs[i as int].1.wf_rec((fl - 1) as nat));
                        }
                        let child: &Node = body.child_at(i);
                        let r = child.search(key);
                        proof {
                            lemma_node_pairs_at(*child, (fl - 1) as nat);
                            assert(self.contains_key(key) == child.contains_key(key)) by {
                                if self.contains_key(key) {
                                    let v = choose|v: usize| self.contains_pair(key, v);
                                    if exists|j: int|
                                        0 <= j < body.buckets().len()
                                            && (#[trigger] body.buckets()[j]).1.contains_rec(
                                            (fl - 1) as nat,
                                            key,
                                            v,
                                        ) {
                                        let j = choose|j: int|
                                            0 <= j < body.buckets().len()
                                                && (#[trigger] body.buckets()[j]).1.contains_rec(
                                                (fl - 1) as nat,
                                                key,
                                                v,
                                            );
                                        assert(j == i as int);
                                        assert(child.contains_pair(key, v));
                                    } else {
                                        assert(body.unbounded() is Some
                                            && body.unbounded().unwrap().contains_rec(
                                            (fl - 1) as nat,
                                            key,
                                            v,
                                        ));
                                        assert(false);
                                    }
                                }
                                if child.contains_key(key) {
                                    let v = choose|v: usize| child.contains_pair(key, v);
                                    assert(child.contains_rec((fl - 1) as nat, key, v));
                                    assert(body.contains_rec(fl, key, v));
                                    assert(self.contains_pair(key, v));
                                }
                            }
                            if r is Some {
                                let p = r.unwrap().current_spec().unwrap();
                                assert(child.contains_pair(key, p.1));
                                assert(child.contains_rec((fl - 1) as nat, key, p.1));
                                assert(self.contains_pair(key, p.1));
                            }
                        }
                        r
                    },
                    None => {
                        proof {
                            let bs = body.buckets();
                            assert(num_lt(bs, key) == bs.len()) by {
                                if num_lt(bs, key) < bs.len() {
                                    assert(bs[num_lt(bs, key)].0 >= key);
                                }
                            }
                        }
                        match &body.unbounded_child {
                            Some(u) => {
                                proof {
                                    assert(u.wf_rec((fl - 1) as nat));
                                }
                                let r = u.search(key);
                                proof {
                                    lemma_node_pairs_at(**u, (fl - 1) as nat);
                                    assert(self.contains_key(key) == u.contains_key(key)) by {
                                        if self.contains_key(key) {
                                            let v = choose|v: usize| self.contains_pair(key, v);
                                            if exists|j: int|
                                                0 <= j < body.buckets().len()
                                                    && (#[trigger] body.buckets()[j]).1.contains_rec(
                                                    (fl - 1) as nat,
                                                    key,
                                                    v,
                                                ) {
                                                let j = choose|j: int|
                                                    0 <= j < body.buckets().len()
                                                        && (#[trigger] body.buckets()[j]).1.contains_rec(
                                                        (fl - 1) as nat,
                                                        key,
                                                        v,
                                                    );
                                                assert(false);
                                            } else {
                                                assert(u.contains_rec((fl - 1) as nat, key, v));
                                                assert(u.contains_pair(key, v));
                                            }
                                        }
                                        if u.contains_key(key) {
                                            let v = choose|v: usize| u.contains_pair(key, v);
                                            assert(u.contains_rec((fl - 1) as nat, key, v));
                                            assert(body.contains_rec(fl, key, v));
                                            assert(self.contains_pair(key, v));
                                        }
                                    }
                                    if r is Some {
                                        let p = r.unwrap().current_spec().unwrap();
                                        assert(u.contains_pair(key, p.1));
                                        assert(u.contains_rec((fl - 1) as nat, key, p.1));
                                        assert(self.contains_pair(key, p.1));
                                    }
                                }
                                r
                            },
                            None => {
                                proof {
                                    assert(!self.contains_key(key)) by {
                                        if self.contains_key(key) {
                                            let v = choose|v: usize| self.contains_pair(key, v);
                                            if exists|j: int|
                                                0 <= j < body.buckets().len()
                                                    && (#[trigger] body.buckets()[j]).1.contains_rec(
                                                    (fl - 1) as nat,
                                                    key,
                                                    v,
                                                ) {
                                                let j = choose|j: int|
                                                    0 <= j < body.buckets().len()
                                                        && (#[trigger] body.buckets()[j]).1.contains_rec(
                                                        (fl - 1) as nat,
                                                        key,
                                                        v,
                                                    );
                                                assert(false);
                                            }
                                        }
                                    }
                                }
                                None
                            },
                        }
                    },
                }
            },
        }
    }
}

/// A read-side cursor over a leaf node's ordered entries: walks the buckets
/// in order and falls through to the unbounded tail. A cursor positioned by
/// a point search stays inside the leaf it was positioned in.
pub struct LeafNodeScanner {
    in_unbounded: bool,
    bucket: usize,
    pos: usize,
    started: bool,
    done: bool,
    single_leaf: bool,
    current: Option<(usize, usize)>,
}

impl LeafNodeScanner {
    pub closed spec fn current_spec(self) -> Option<(usize, usize)> {
        self.current
    }

    /// The cursor either has not started, is exhausted, or points at a live
    /// entry of `node`, which `current` mirrors.
    pub open spec fn inv(self, node: Node) -> bool {
        &&& (!self.started_spec() ==> self.current_spec() is None && !self.done_spec())
        &&& (self.done_spec() ==> self.current_spec() is None)
        &&& (self.started_spec() && !self.done_spec() && node.is_leaf_node() ==> (
        {
            let b = node.leaf_body();
            if self.in_unbounded_spec() {
                &&& b.unbounded() is Some
                &&& (self.pos_spec() as int) < b.unbounded().unwrap()@.len()
                &&& self.current_spec() == Some(b.unbounded().unwrap()@[self.pos_spec() as int])
            } else {
                &&& (self.bucket_spec() as int) < b.buckets().len()
                &&& (self.pos_spec() as int) < b.buckets()[self.bucket_spec() as int].1@.len()
                &&& self.current_spec() == Some(
                    b.buckets()[self.bucket_spec() as int].1@[self.pos_spec() as int],
                )
            }
        }))
        &&& (self.started_spec() && !self.done_spec() && !node.is_leaf_node()
            ==> self.current_spec() is None)
    }

    pub closed spec fn started_spec(self) -> bool {
        self.started
    }

    pub closed spec fn done_spec(self) -> bool {
        self.done
    }

    pub closed spec fn in_unbounded_spec(self) -> bool {
        self.in_unbounded
    }

    pub closed spec fn bucket_spec(self) -> usize {
        self.bucket
    }

    pub closed spec fn pos_spec(self) -> usize {
        self.pos
    }

    /// A search-positioned cursor: it drains the one leaf it was positioned
    /// in and then stops.
    pub closed spec fn single_leaf_spec(self) -> bool {
        self.single_leaf
    }

    /// A fresh cursor, positioned before the first entry.
    pub fn new(node: &Node) -> (r: LeafNodeScanner)
        ensures
            r.inv(*node),
            r.current_spec() is None,
            !r.started_spec(),
            !r.single_leaf_spec(),
            !r.done_spec(),
    {
        LeafNodeScanner {
            in_unbounded: false,
            bucket: 0,
            pos: 0,
            started: false,
            done: false,
            single_leaf: false,
            current: None,
        }
    }

    /// The entry the scanner currently points to, without advancing.
    pub fn get(&self) -> (r: Option<(usize, usize)>)
        ensures
            r == self.current_spec(),
    {
        self.current
    }

    /// Advances to the next entry and returns it. Yields strictly ascending
    /// keys, each of them live in `node`, and skips nothing: a full scan
    /// from a fresh cursor visits every stored entry, and `None` comes only
    /// once nothing is stored past the cursor. A cursor that reported the
    /// end stays at the end. On a routing node there is nothing at this
    /// level to scan. A search-positioned cursor drains only the leaf it
    /// was positioned in.
    #[verifier::rlimit(100)]
    pub fn next(&mut self, node: &Node) -> (r: Option<(usize, usize)>)
        requires
            old(self).inv(*node),
            node.wf(),
        ensures
            final(self).inv(*node),
            r == final(self).current_spec(),
            r matches Some(p) ==> node.contains_pair(p.0, p.1),
            r matches Some(p) ==> old(self).current_spec() matches Some(c) ==> p.0 > c.0,
            old(self).done_spec() ==> *final(self) == *old(self),
            (r is None) == final(self).done_spec(),
            !old(self).single_leaf_spec() && node.is_leaf_node() && !old(self).done_spec() && r
                is None ==> (forall|k: usize, v: usize|
                #[trigger] node.contains_pair(k, v) ==> (match old(self).current_spec() {
                    Some(c) => k <= c.0,
                    None => false,
                })),
            !old(self).single_leaf_spec() && node.is_leaf_node() ==> (r matches Some(p) ==> (forall|
                k: usize,
                v: usize,
            |
                #[trigger] node.contains_pair(k, v) ==> (match old(self).current_spec() {
                    Some(c) => k <= c.0,
                    None => false,
                }) || k >= p.0)),
    {
        if self.done {
            return None;
        }
        let body: &LeafBody;
        match &node.entry {
            NodeType::LeafNode(b) => {
                body = b;
            },
            NodeType::InternalNode(_) => {
                self.started = true;
                self.done = true;
                self.current = None;
                return None;
            },
        }
        proof {
            assert(node.is_leaf_node()) by {
                assert(node.wf_rec(node.floor_of() as nat));
            }
            assert(node.leaf_body() == *body);
        }
        let nbuckets: usize = body.bounded_children.len();
        if !self.started {
            // position on the very first entry
            self.started = true;
            self.single_leaf = false;
            self.in_unbounded = false;
            if nbuckets > 0 {
                self.bucket = 0;
                self.pos = 0;
            } else {
                match &body.unbounded_child {
                    Some(_) => {
                        self.in_unbounded = true;
                        self.pos = 0;
                    },
                    None => {
                        self.done = true;
                        self.current = None;
                        proof {
                            assert forall|k: usize, v: usize|
                                !(#[trigger] node.contains_pair(k, v)) by {
                                if node.contains_pair(k, v) {
                                    let b2 = node.leaf_body();
                                    assert(b2.contains_pair(k, v));
                                    if exists|j2: int|
                                        0 <= j2 < b2.buckets().len() && has_entry(
                                            (#[trigger] b2.buckets()[j2]).1@,
                                            k,
                                            v,
                                        ) {
                                        let j2 = choose|j2: int|
                                            0 <= j2 < b2.buckets().len() && has_entry(
                                                (#[trigger] b2.buckets()[j2]).1@,
                                                k,
                                                v,
                                            );
                                    }
                                }
                            }
                        }
                        return None;
                    },
                }
            }
        } else if !self.in_unbounded {
            let blen: usize = body.bounded_children.value_at(self.bucket).len();
            if self.pos + 1 < blen {
                self.pos = self.pos + 1;
            } else if self.single_leaf {
                // a search-positioned cursor drains its own leaf only
                self.done = true;
                self.current = None;
                return None;
            } else if self.bucket + 1 < nbuckets {
                self.bucket = self.bucket + 1;
                self.pos = 0;
            } else {
                match &body.unbounded_child {
                    Some(_) => {
                        self.in_unbounded = true;
                        self.pos = 0;
                    },
                    None => {
                        self.done = true;
                        self.current = None;
                        proof {
                            let b2 = node.leaf_body();
                            let c = old(self).current_spec().unwrap();
                            let ob = old(self).bucket_spec() as int;
                            let op = old(self).pos_spec() as int;
                            assert(ob == b2.buckets().len() - 1);
                            assert(op == b2.buckets()[ob].1@.len() - 1);
                            assert forall|k: usize, v: usize|
                                #[trigger] node.contains_pair(k, v) implies k <= c.0 by {
                                assert(b2.contains_pair(k, v));
                                if exists|j2: int|
                                    0 <= j2 < b2.buckets().len() && has_entry(
                                        (#[trigger] b2.buckets()[j2]).1@,
                                        k,
                                        v,
                                    ) {
                                    let j2 = choose|j2: int|
                                        0 <= j2 < b2.buckets().len() && has_entry(
                                            (#[trigger] b2.buckets()[j2]).1@,
                                            k,
                                            v,
                                        );
                                    let l = choose|l: int|
                                        0 <= l < b2.buckets()[j2].1@.len() && (
                                        #[trigger] b2.buckets()[j2].1@[l]).0 == k
                                            && b2.buckets()[j2].1@[l].1 == v;
                                    assert(LeafBody::bucket_in_range(b2.buckets(), j2));
                                    assert(LeafBody::bucket_in_range(b2.buckets(), ob));
                                    if j2 < ob {
                                        assert(k <= b2.buckets()[j2].0);
                                        assert(b2.buckets()[j2].0 <= b2.buckets()[ob - 1].0) by {
                                            if j2 < ob - 1 {
                                                assert(b2.buckets()[j2].0 < b2.buckets()[ob
                                                    - 1].0);
                                            }
                                        }
                                        assert(c.0 > b2.buckets()[ob - 1].0);
                                    } else {
                                        assert(j2 == ob);
                                        if l < op {
                                            assert(b2.buckets()[ob].1@[l].0 < b2.buckets()[ob].1@[
                                                op].0);
                                        }
                                    }
                                }
                            }
                        }
                        return None;
                    },
                }
            }
        } else {
            let ulen: usize;
            match &body.unbounded_child {
                Some(u) => {
                    ulen = u.len();
                },
                None => {
                    proof {
                        assert(false);
                    }
                    ulen = 0;
                },
            }
            if self.pos + 1 < ulen {
                self.pos = self.pos + 1;
            } else {
                self.done = true;
                self.current = None;
                proof {
                    let b2 = node.leaf_body();
                    let c = old(self).current_spec().unwrap();
                    let op = old(self).pos_spec() as int;
                    let u = b2.unbounded().unwrap();
                    assert(op == u@.len() - 1);
                    assert forall|k: usize, v: usize|
                        #[trigger] node.contains_pair(k, v) implies k <= c.0 by {
                        assert(b2.contains_pair(k, v));
                        assert(c.0 >= u@[0].0) by {
                            if op > 0 {
                                assert(u@[0].0 < u@[op].0);
                            }
                        }
                        if exists|j2: int|
                            0 <= j2 < b2.buckets().len() && has_entry(
                                (#[trigger] b2.buckets()[j2]).1@,
                                k,
                                v,
                            ) {
                            let j2 = choose|j2: int|
                                0 <= j2 < b2.buckets().len() && has_entry(
                                    (#[trigger] b2.buckets()[j2]).1@,
                                    k,
                                    v,
                                );
                            let l = choose|l: int|
                                0 <= l < b2.buckets()[j2].1@.len() && (
                                #[trigger] b2.buckets()[j2].1@[l]).0 == k && b2.buckets()[j2].1@[
                                    l].1 == v;
                            assert(LeafBody::bucket_in_range(b2.buckets(), j2));
                            assert(k <= b2.buckets()[j2].0);
                            assert(b2.buckets()[j2].0 <= b2.buckets().last().0) by {
                                if j2 < b2.buckets().len() - 1 {
                                    assert(b2.buckets()[j2].0 < b2.buckets()[b2.buckets().len()
                                        - 1].0);
                                }
                            }
                            assert(u@[0].0 > b2.buckets().last().0);
                        } else {
                            let l = choose|l: int|
                                0 <= l < u@.len() && (#[trigger] u@[l]).0 == k && u@[l].1 == v;
                            if l < op {
                                assert(u@[l].0 < u@[op].0);
                            }
                        }
                    }
                }
                return None;
            }
        }
        // read the entry at the new position
        let entry: (usize, usize);
        if self.in_unbounded {
            match &body.unbounded_child {
                Some(u) => {
                    let k: usize = u.key_at(self.pos);
                    let v: usize = *u.value_at(self.pos);
                    entry = (k, v);
                    proof {
                        assert(has_entry(u@, entry.0, entry.1));
                    }
                },
                None => {
                    proof {
                        assert(false);
                    }
                    entry = (0, 0);
                },
            }
        } else {
            let leaf: &Leaf<usize> = body.bounded_children.value_at(self.bucket);
            let k: usize = leaf.key_at(self.pos);
            let v: usize = *leaf.value_at(self.pos);
            entry = (k, v);
            proof {
                assert(has_entry(body.buckets()[self.bucket as int].1@, entry.0, entry.1));
            }
        }
        self.current = Some(entry);
        proof {
            let b = node.leaf_body();
            let ob = old(self).bucket_spec() as int;
            let op = old(self).pos_spec() as int;
            assert(node.contains_pair(entry.0, entry.1)) by {
                if self.in_unbounded {
                    assert(b.contains_pair(entry.0, entry.1));
                } else {
                    assert(has_entry(b.buckets()[self.bucket as int].1@, entry.0, entry.1));
                    assert(b.contains_pair(entry.0, entry.1));
                }
            }
            match old(self).current_spec() {
                Some(c) => {
                    if old(self).in_unbounded_spec() {
                        // stayed inside the unbounded leaf
                        assert(b.unbounded().unwrap()@[op].0 < b.unbounded().unwrap()@[self.pos
                            as int].0);
                    } else if !self.in_unbounded && self.bucket as int == ob {
                        assert(b.buckets()[ob].1@[op].0 < b.buckets()[ob].1@[self.pos as int].0);
                    } else if !self.in_unbounded {
                        // moved to the next bucket: its keys lie past the old
                        // bucket's upper bound
                        assert(LeafBody::bucket_in_range(b.buckets(), ob));
                        assert(c.0 <= b.buckets()[ob].0);
                        assert(LeafBody::bucket_in_range(b.buckets(), self.bucket as int));
                        assert(entry.0 > b.buckets()[self.bucket as int - 1].0);
                        assert(b.buckets()[ob].0 <= b.buckets()[self.bucket as int - 1].0);
                    } else {
                        // fell through to the unbounded leaf from the last
                        // bucket
                        assert(LeafBody::bucket_in_range(b.buckets(), ob));
                        assert(c.0 <= b.buckets()[ob].0);
                        assert(entry.0 > b.buckets().last().0);
                        assert(b.buckets()[ob].0 <= b.buckets().last().0);
                    }
                },
                None => {},
            }
            // nothing stored sits strictly between the old cursor and the
            // entry just yielded
            if !old(self).single_leaf_spec() {
                assert forall|k: usize, v: usize|
                    #[trigger] node.contains_pair(k, v) implies (match old(self).current_spec() {
                    Some(c) => k <= c.0,
                    None => false,
                }) || k >= entry.0 by {
                    assert(b.contains_pair(k, v));
                    if exists|j2: int|
                        0 <= j2 < b.buckets().len() && has_entry(
                            (#[trigger] b.buckets()[j2]).1@,
                            k,
                            v,
                        ) {
                        let j2 = choose|j2: int|
                            0 <= j2 < b.buckets().len() && has_entry(
                                (#[trigger] b.buckets()[j2]).1@,
                                k,
                                v,
                            );
                        let l = choose|l: int|
                            0 <= l < b.buckets()[j2].1@.len() && (#[trigger] b.buckets()[j2].1@[
                                l]).0 == k && b.buckets()[j2].1@[l].1 == v;
                        assert(LeafBody::bucket_in_range(b.buckets(), j2));
                        if !old(self).started_spec() {
                            // fresh start: the entry is the structure's least
                            assert(!self.in_unbounded);
                            if j2 == self.bucket as int {
                                if l > self.pos as int {
                                    assert(b.buckets()[j2].1@[self.pos as int].0 < b.buckets()[
                                        j2].1@[l].0);
                                }
                            } else {
                                assert(k > b.buckets()[j2 - 1].0);
                                assert(b.buckets()[0].0 <= b.buckets()[j2 - 1].0) by {
                                    if 0 < j2 - 1 {
                                        assert(b.buckets()[0].0 < b.buckets()[j2 - 1].0);
                                    }
                                }
                                assert(entry.0 <= b.buckets()[0].0);
                            }
                        } else if old(self).in_unbounded_spec() {
                            // bucket entries lie below any unbounded cursor
                            let c = old(self).current_spec().unwrap();
                            let u = b.unbounded().unwrap();
                            assert(k <= b.buckets()[j2].0);
                            assert(b.buckets()[j2].0 <= b.buckets().last().0) by {
                                if j2 < b.buckets().len() - 1 {
                                    assert(b.buckets()[j2].0 < b.buckets()[b.buckets().len()
                                        - 1].0);
                                }
                            }
                            assert(u@[0].0 > b.buckets().last().0);
                            assert(c.0 >= u@[0].0) by {
                                if op > 0 {
                                    assert(u@[0].0 < u@[op].0);
                                }
                            }
                        } else {
                            let c = old(self).current_spec().unwrap();
                            assert(LeafBody::bucket_in_range(b.buckets(), ob));
                            if j2 < ob {
                                assert(k <= b.buckets()[j2].0);
                                assert(b.buckets()[j2].0 <= b.buckets()[ob - 1].0) by {
                                    if j2 < ob - 1 {
                                        assert(b.buckets()[j2].0 < b.buckets()[ob - 1].0);
                                    }
                                }
                                assert(c.0 > b.buckets()[ob - 1].0);
                            } else if j2 == ob {
                                if l <= op {
                                    if l < op {
                                        assert(b.buckets()[ob].1@[l].0 < b.buckets()[ob].1@[op].0);
                                    }
                                } else {
                                    if !self.in_unbounded && self.bucket as int == ob {
                                        // advanced within this leaf
                                        if l > self.pos as int {
                                            assert(b.buckets()[ob].1@[self.pos as int].0
                                                < b.buckets()[ob].1@[l].0);
                                        }
                                    } else {
                                        // this leaf was drained before moving on
                                        assert(op == b.buckets()[ob].1@.len() - 1);
                                        assert(false);
                                    }
                                }
                            } else {
                                assert(k > b.buckets()[j2 - 1].0);
                                assert(b.buckets()[ob].0 <= b.buckets()[j2 - 1].0) by {
                                    if ob < j2 - 1 {
                                        assert(b.buckets()[ob].0 < b.buckets()[j2 - 1].0);
                                    }
                                }
                                if !self.in_unbounded && self.bucket as int == ob {
                                    assert(entry.0 <= b.buckets()[ob].0);
                                } else if !self.in_unbounded {
                                    assert(self.bucket as int == ob + 1);
                                    if j2 == ob + 1 {
                                        if l > self.pos as int {
                                            assert(b.buckets()[j2].1@[self.pos as int].0
                                                < b.buckets()[j2].1@[l].0);
                                        }
                                    } else {
                                        assert(b.buckets()[ob + 1].0 <= b.buckets()[j2 - 1].0) by {
                                            if ob + 1 < j2 - 1 {
                                                assert(b.buckets()[ob + 1].0 < b.buckets()[j2
                                                    - 1].0);
                                            }
                                        }
                                        assert(entry.0 <= b.buckets()[ob + 1].0);
                                    }
                                } else {
                                    // moved past the last bucket: none lies
                                    // beyond it
                                    assert(ob == b.buckets().len() - 1);
                                    assert(false);
                                }
                            }
                        }
                    } else {
                        let u = b.unbounded().unwrap();
                        assert(has_entry(u@, k, v));
                        let l = choose|l: int|
                            0 <= l < u@.len() && (#[trigger] u@[l]).0 == k && u@[l].1 == v;
                        assert(k > b.buckets().last().0);
                        if !old(self).started_spec() {
                            // a tail exists only once the bucket index is
                            // full, so the fresh cursor began at bucket 0
                            assert(b.buckets().len() == ARRAY_SIZE);
                            assert(!self.in_unbounded);
                            assert(entry.0 <= b.buckets()[0].0);
                            assert(b.buckets()[0].0 <= b.buckets().last().0) by {
                                if 0 < b.buckets().len() - 1 {
                                    assert(b.buckets()[0].0 < b.buckets()[b.buckets().len()
                                        - 1].0);
                                }
                            }
                        } else if old(self).in_unbounded_spec() {
                            let c = old(self).current_spec().unwrap();
                            if l <= op {
                                if l < op {
                                    assert(u@[l].0 < u@[op].0);
                                }
                            } else {
                                assert(self.in_unbounded && self.pos as int == op + 1);
                                if l > self.pos as int {
                                    assert(u@[self.pos as int].0 < u@[l].0);
                                }
                            }
                        } else {
                            if !self.in_unbounded {
                                assert(entry.0 <= b.buckets()[self.bucket as int].0);
                                assert(b.buckets()[self.bucket as int].0 <= b.buckets().last().0)
                                    by {
                                    if (self.bucket as int) < b.buckets().len() - 1 {
                                        assert(b.buckets()[self.bucket as int].0 < b.buckets()[
                                            b.buckets().len() - 1].0);
                                    }
                                }
                            } else {
                                assert(self.pos == 0);
                                if l > 0 {
                                    assert(u@[0].0 < u@[l].0);
                                }
                            }
                        }
                    }
                }
            }
        }
        Some(entry)
    }
}

} // verus!

