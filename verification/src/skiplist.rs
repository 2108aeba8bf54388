//! A skiplist: an ordered list of keys with forward links on several
//! levels, so that a search skips most of the list.
//!
//! Nodes live in an arena and refer to one another by number; the number 0
//! stands for the head as a place to start from, and for "no node" as a
//! link. Keys that compare equal may both be inserted: the later one is
//! placed before the earlier one.

use vstd::prelude::*;
use std::cmp::Ordering;
use crate::comparator::agrees;
use crate::random::{next_seed, Random};

verus! {

/// No node has more levels than this.
pub const MAX_HEIGHT: usize = 12;

/// A node gets one level more with a chance of one in this many.
pub const BRANCHING: i32 = 4;

/// An order on keys of type `K`. Keys that neither precede nor follow one
/// another count as equal.
pub trait Cmp<K> {
    /// Whether `k` is a key that can be compared. An implementation that
    /// does not say which keys it takes is taken to take any.
    open spec fn valid(&self, k: K) -> bool {
        true
    }

    /// Whether `a` comes strictly before `b`. An implementation that does
    /// not say how it orders is taken to order in any way.
    open spec fn less(&self, a: K, b: K) -> bool {
        arbitrary()
    }

    /// `less` is a strict weak order: nothing precedes itself, the order is
    /// transitive, and a key that precedes another precedes, or the other
    /// follows, any third.
    proof fn lemma_order(&self, a: K, b: K, c: K)
        ensures
            !self.less(a, a),
            self.less(a, b) && self.less(b, c) ==> self.less(a, c),
            self.less(a, b) ==> self.less(a, c) || self.less(c, b),
    ;

    /// Three-way comparison of `a` and `b`.
    fn compare(&self, a: &K, b: &K) -> (o: Ordering)
        requires
            self.valid(*a),
            self.valid(*b),
        ensures
            agrees(o, self.less(*a, *b), self.less(*b, *a)),
    ;
}

/// Whether no key of `keys` comes strictly before an earlier one.
pub open spec fn sorted<K, C: Cmp<K>>(c: &C, keys: Seq<K>) -> bool {
    forall|i: int, j: int| 0 <= i < j < keys.len() ==> !c.less(#[trigger] keys[j], #[trigger] keys[i])
}

/// The first place in `keys`, taken as sorted, whose key does not come
/// before `key`; the length of `keys` where every key comes before it.
#[verifier::opaque]
pub open spec fn lower_bound<K, C: Cmp<K>>(c: &C, keys: Seq<K>, key: K) -> int
    decreases keys.len(),
{
    if keys.len() == 0 {
        0
    } else if c.less(keys.last(), key) {
        keys.len() as int
    } else {
        lower_bound(c, keys.drop_last(), key)
    }
}

/// Whether `keys` holds a key equal to `key`.
pub open spec fn holds<K, C: Cmp<K>>(c: &C, keys: Seq<K>, key: K) -> bool {
    exists|i: int| 0 <= i < keys.len() && !c.less(#[trigger] keys[i], key) && !c.less(key, keys[i])
}

/// In sorted keys, exactly the keys before the lower bound of `key` come
/// before `key`.
pub proof fn lemma_lower_bound<K, C: Cmp<K>>(c: &C, keys: Seq<K>, key: K)
    requires
        sorted(c, keys),
    ensures
        0 <= lower_bound(c, keys, key) <= keys.len(),
        forall|i: int|
            0 <= i < keys.len() ==> (c.less(#[trigger] keys[i], key) <==> i < lower_bound(
                c,
                keys,
                key,
            )),
    decreases keys.len(),
{
    reveal(lower_bound);
    if keys.len() == 0 {
    } else if c.less(keys.last(), key) {
        assert forall|i: int| 0 <= i < keys.len() implies c.less(#[trigger] keys[i], key) by {
            if i < keys.len() - 1 {
                assert(!c.less(keys[keys.len() - 1], keys[i]));
                c.lemma_order(keys.last(), key, keys[i]);
            }
        }
    } else {
        let front = keys.drop_last();
        assert forall|i: int, j: int| 0 <= i < j < front.len() implies !c.less(
            #[trigger] front[j],
            #[trigger] front[i],
        ) by {
            assert(front[j] == keys[j] && front[i] == keys[i]);
        }
        lemma_lower_bound(c, front, key);
        assert forall|i: int| 0 <= i < keys.len() implies (c.less(#[trigger] keys[i], key) <==> i
            < lower_bound(c, keys, key)) by {
            if i < front.len() {
                assert(front[i] == keys[i]);
            }
        }
    }
}

/// A key that is put at its lower bound leaves sorted keys sorted.
pub proof fn lemma_insert_sorted<K, C: Cmp<K>>(c: &C, keys: Seq<K>, key: K)
    requires
        sorted(c, keys),
    ensures
        sorted(c, keys.insert(lower_bound(c, keys, key), key)),
{
    lemma_lower_bound(c, keys, key);
    let at = lower_bound(c, keys, key);
    let after = keys.insert(at, key);
    assert forall|i: int, j: int| 0 <= i < j < after.len() implies !c.less(
        #[trigger] after[j],
        #[trigger] after[i],
    ) by {
        c.lemma_order(key, key, key);
        if j == at {
            assert(after[i] == keys[i]);
            assert(c.less(keys[i], key));
            c.lemma_order(key, keys[i], key);
        } else if i == at {
            assert(after[j] == keys[j - 1]);
            assert(!c.less(keys[j - 1], key));
        } else {
            let a = if i < at {
                i
            } else {
                i - 1
            };
            let b = if j < at {
                j
            } else {
                j - 1
            };
            assert(after[i] == keys[a] && after[j] == keys[b]);
            assert(!c.less(keys[b], keys[a]));
        }
    }
}

/// A list that got a key holds the keys that it held, and the keys equal
/// to the new one.
pub proof fn lemma_insert_holds<K, C: Cmp<K>>(c: &C, keys: Seq<K>, key: K, k: K)
    requires
        sorted(c, keys),
    ensures
        holds(c, keys.insert(lower_bound(c, keys, key), key), k) <==> holds(c, keys, k) || (
        !c.less(key, k) && !c.less(k, key)),
{
    lemma_lower_bound(c, keys, key);
    let at = lower_bound(c, keys, key);
    let after = keys.insert(at, key);
    if holds(c, keys, k) {
        let i = choose|i: int| 0 <= i < keys.len() && !c.less(#[trigger] keys[i], k) && !c.less(
            k,
            keys[i],
        );
        let j = if i < at {
            i
        } else {
            i + 1
        };
        assert(after[j] == keys[i]);
    }
    if !c.less(key, k) && !c.less(k, key) {
        assert(after[at] == key);
    }
    if holds(c, after, k) {
        let j = choose|j: int| 0 <= j < after.len() && !c.less(#[trigger] after[j], k) && !c.less(
            k,
            after[j],
        );
        if j < at {
            assert(after[j] == keys[j]);
        } else if j > at {
            assert(after[j] == keys[j - 1]);
        }
    }
}

/// The height that a generator at `seed` gives a node that has reached
/// `height` levels: one more for each draw of one in four, up to the
/// maximum.
#[verifier::opaque]
pub open spec fn height_from(seed: u32, height: nat) -> nat
    decreases MAX_HEIGHT - height,
{
    if height < MAX_HEIGHT && next_seed(seed) % (BRANCHING as u32) == 0 {
        height_from(next_seed(seed), height + 1)
    } else {
        height
    }
}

/// The seed at which the generator is left after the draws of
/// `height_from`.
#[verifier::opaque]
pub open spec fn seed_after_height(seed: u32, height: nat) -> u32
    decreases MAX_HEIGHT - height,
{
    if height >= MAX_HEIGHT {
        seed
    } else if next_seed(seed) % (BRANCHING as u32) == 0 {
        seed_after_height(next_seed(seed), height + 1)
    } else {
        next_seed(seed)
    }
}

/// One step of `height_from` and `seed_after_height`, written out.
proof fn lemma_height_step(seed: u32, height: nat)
    ensures
        height >= MAX_HEIGHT ==> height_from(seed, height) == height && seed_after_height(
            seed,
            height,
        ) == seed,
        height < MAX_HEIGHT && next_seed(seed) % 4 == 0 ==> height_from(seed, height)
            == height_from(next_seed(seed), height + 1) && seed_after_height(seed, height)
            == seed_after_height(next_seed(seed), height + 1),
        height < MAX_HEIGHT && next_seed(seed) % 4 != 0 ==> height_from(seed, height) == height
            && seed_after_height(seed, height) == next_seed(seed),
{
    reveal(height_from);
    reveal(seed_after_height);
}

/// Where the key at place `p` is found once a key was put at place `at`.
pub open spec fn shift(p: int, at: int) -> int {
    if p < at {
        p
    } else {
        p + 1
    }
}

struct Node<K> {
    key: K,
    /// The next node on each level that this node has.
    next: Vec<usize>,
}

impl<K> Node<K> {
    /// A node of `height` levels that is linked to nothing yet.
    fn new_node(key: K, height: usize) -> (node: Self)
        ensures
            node.key == key,
            node.next@.len() == height,
            forall|l: int| 0 <= l < height ==> node.next@[l] == 0,
    {
        Node { key, next: vec![0usize; height] }
    }

    /// The node, if any, that follows on level `n`.
    fn next(&self, n: usize) -> (r: usize)
        requires
            n < self.next@.len(),
        ensures
            r == self.next@[n as int],
    {
        self.next[n]
    }

    /// Makes `node` follow on level `n`.
    fn set_next(&mut self, n: usize, node: usize)
        requires
            n < old(self).next@.len(),
        ensures
            final(self).key == old(self).key,
            final(self).next@ == old(self).next@.update(n as int, node),
    {
        self.next[n] = node;
    }
}

/// An ordered list of keys.
pub struct SkipList<K, C: Cmp<K>> {
    /// The links of the head, one for each level.
    head: Vec<usize>,
    /// Node number `x` is `nodes[x - 1]`.
    nodes: Vec<Node<K>>,
    max_height: usize,
    rand: Random,
    comparator: C,
    /// The node numbers in the order of their keys.
    order: Ghost<Seq<int>>,
    /// For each node, its place in `order`.
    place: Ghost<Seq<int>>,
}

impl<K, C: Cmp<K>> View for SkipList<K, C> {
    type V = Seq<K>;

    closed spec fn view(&self) -> Seq<K> {
        Seq::new(self.nodes@.len(), |i: int| self.nodes@[self.order@[i] - 1].key)
    }
}

impl<K, C: Cmp<K>> SkipList<K, C> {
    /// The order of the keys.
    pub closed spec fn key_order(&self) -> &C {
        &self.comparator
    }

    /// The greatest height of a node so far.
    pub closed spec fn max_height(&self) -> nat {
        self.max_height as nat
    }

    /// The seed from which the height of the next node is drawn.
    pub closed spec fn seed(&self) -> u32 {
        self.rand.seed()
    }

    spec fn count(&self) -> int {
        self.nodes@.len() as int
    }

    spec fn height_of(&self, x: int) -> int {
        if x == 0 {
            MAX_HEIGHT as int
        } else {
            self.nodes@[x - 1].next@.len() as int
        }
    }

    spec fn next_of(&self, x: int, l: int) -> int {
        if x == 0 {
            self.head@[l] as int
        } else {
            self.nodes@[x - 1].next@[l] as int
        }
    }

    spec fn key_of(&self, x: int) -> K {
        self.nodes@[x - 1].key
    }

    /// The place of node `x` among the keys; the head comes before all.
    spec fn place_of(&self, x: int) -> int {
        if x == 0 {
            -1
        } else {
            self.place@[x - 1]
        }
    }

    /// The place of a link's target; "no node" lies behind all.
    spec fn bound_of(&self, y: int) -> int {
        if y == 0 {
            self.count()
        } else {
            self.place_of(y)
        }
    }

    /// The link of `x` on level `l` leads to the next node that has that
    /// level.
    spec fn link_ok(&self, x: int, l: int) -> bool {
        let y = self.next_of(x, l);
        &&& 0 <= y <= self.count()
        &&& y != 0 ==> self.height_of(y) > l
        &&& self.place_of(x) < self.bound_of(y)
        &&& forall|z: int|
            1 <= z <= self.count() && self.place_of(x) < #[trigger] self.place_of(z)
                < self.bound_of(y) ==> self.height_of(z) <= l
    }

    /// All of the invariant but the links.
    spec fn frame_ok(&self) -> bool {
        let n = self.count();
        &&& self.head@.len() == MAX_HEIGHT
        &&& 1 <= self.max_height <= MAX_HEIGHT
        &&& self.order@.len() == n
        &&& self.place@.len() == n
        &&& forall|x: int| 1 <= x <= n ==> 1 <= #[trigger] self.height_of(x) <= self.max_height
        &&& forall|x: int| 1 <= x <= n ==> self.comparator.valid(#[trigger] self.key_of(x))
        &&& forall|x: int|
            1 <= x <= n ==> 0 <= #[trigger] self.place_of(x) < n && self.order@[self.place_of(x)]
                == x
        &&& forall|i: int|
            0 <= i < n ==> 1 <= #[trigger] self.order@[i] <= n && self.place_of(self.order@[i])
                == i
        &&& sorted(&self.comparator, self@)
    }

    /// The invariant of a skiplist: its keys are sorted, and every link
    /// leads to the next node that is high enough.
    pub closed spec fn wf(&self) -> bool {
        &&& self.frame_ok()
        &&& forall|x: int, l: int|
            0 <= x <= self.count() && 0 <= l < self.height_of(x) ==> #[trigger] self.link_ok(x, l)
    }

    /// The keys of a skiplist are sorted, and each of them is valid.
    pub proof fn lemma_sorted(&self)
        requires
            self.wf(),
        ensures
            sorted(self.key_order(), self@),
            forall|i: int| 0 <= i < self@.len() ==> self.key_order().valid(#[trigger] self@[i]),
            1 <= self.max_height() <= MAX_HEIGHT,
    {
        assert forall|i: int| 0 <= i < self@.len() implies self.key_order().valid(
            #[trigger] self@[i],
        ) by {
            let x = self.order@[i];
            assert(self@[i] == self.key_of(x));
        }
    }

    /// An empty list whose keys `comparator` will order.
    pub fn new(comparator: C) -> (list: Self)
        ensures
            list.wf(),
            list@ == Seq::<K>::empty(),
            *list.key_order() == comparator,
            list.max_height() == 1,
            list.seed() == 0xdeadbeefu32 % 0x8000_0000,
    {
        let list = SkipList {
            comparator,
            max_height: 1,
            head: vec![0usize; MAX_HEIGHT],
            nodes: Vec::new(),
            rand: Random::new(0xdeadbeef),
            order: Ghost(Seq::empty()),
            place: Ghost(Seq::empty()),
        };
        proof {
            assert(list@ =~= Seq::<K>::empty());
            assert forall|x: int, l: int|
                0 <= x <= list.count() && 0 <= l < list.height_of(x) implies #[trigger] list.link_ok(
                x,
                l,
            ) by {
                assert(list.head@[l] == 0);
            }
        }
        list
    }

    /// The order of the keys.
    pub fn comparator(&self) -> (c: &C)
        ensures
            c == self.key_order(),
    {
        &self.comparator
    }

    /// The number of keys.
    pub fn len(&self) -> (n: usize)
        ensures
            n == self@.len(),
    {
        self.nodes.len()
    }

    /// The greatest height of a node so far.
    pub fn get_max_height(&self) -> (h: usize)
        ensures
            h == self.max_height(),
    {
        self.max_height
    }

    /// Draws the height of a new node: one, and one more for each draw
    /// of one in four that succeeds, up to `MAX_HEIGHT`.
    pub fn random_height(rand: &mut Random) -> (height: usize)
        ensures
            1 <= height <= MAX_HEIGHT,
            height == height_from(old(rand).seed(), 1),
            final(rand).seed() == seed_after_height(old(rand).seed(), 1),
    {
        let mut height: usize = 1;
        let mut done = false;
        let ghost goal = height_from(old(rand).seed(), 1);
        let ghost goal_seed = seed_after_height(old(rand).seed(), 1);
        while !done
            invariant
                1 <= height <= MAX_HEIGHT,
                done ==> height == goal && rand.seed() == goal_seed,
                !done ==> height_from(rand.seed(), height as nat) == goal,
                !done ==> seed_after_height(rand.seed(), height as nat) == goal_seed,
            decreases MAX_HEIGHT - height + if done { 0int } else { 1int },
        {
            let ghost seed = rand.seed();
            proof {
                lemma_height_step(seed, height as nat);
            }
            if height >= MAX_HEIGHT {
                done = true;
            } else if rand.one_in(BRANCHING) {
                height += 1;
            } else {
                done = true;
            }
        }
        height
    }

    /// Whether `a` comes strictly before `b`.
    fn less_than(&self, a: &K, b: &K) -> (r: bool)
        requires
            self.comparator.valid(*a),
            self.comparator.valid(*b),
        ensures
            r == self.comparator.less(*a, *b),
    {
        proof {
            self.comparator.lemma_order(*a, *b, *a);
        }
        match self.comparator.compare(a, b) {
            Ordering::Less => true,
            _ => false,
        }
    }

    /// Three-way comparison of two keys.
    pub fn compare(&self, a: &K, b: &K) -> (o: Ordering)
        requires
            self.key_order().valid(*a),
            self.key_order().valid(*b),
        ensures
            agrees(o, self.key_order().less(*a, *b), self.key_order().less(*b, *a)),
    {
        self.comparator.compare(a, b)
    }

    /// Whether two keys are equal in the list's order.
    pub fn equal(&self, a: &K, b: &K) -> (r: bool)
        requires
            self.key_order().valid(*a),
            self.key_order().valid(*b),
        ensures
            r == (!self.key_order().less(*a, *b) && !self.key_order().less(*b, *a)),
    {
        proof {
            self.comparator.lemma_order(*a, *b, *a);
        }
        match self.comparator.compare(a, b) {
            Ordering::Equal => true,
            _ => false,
        }
    }

    /// The node, if any, to which `x` is linked on `level`.
    fn link(&self, x: usize, level: usize) -> (y: usize)
        requires
            self.wf(),
            x <= self.count(),
            level < self.height_of(x as int),
        ensures
            y == self.next_of(x as int, level as int),
            y <= self.count(),
    {
        assert(self.link_ok(x as int, level as int));
        if x == 0 {
            self.head[level]
        } else {
            self.nodes[x - 1].next(level)
        }
    }

    /// The key of node `x`.
    fn key_at(&self, x: usize) -> (k: &K)
        requires
            self.wf(),
            1 <= x <= self.count(),
        ensures
            *k == self.key_of(x as int),
            *k == self@[self.place_of(x as int)],
            self.key_order().valid(*k),
    {
        assert(self.comparator.valid(self.key_of(x as int)));
        assert(self.order@[self.place_of(x as int)] == x);
        &self.nodes[x - 1].key
    }

    /// A node's key comes before `key` exactly if the node lies before the
    /// lower bound of `key`.
    proof fn lemma_place_less(&self, y: int, key: K)
        requires
            self.wf(),
            1 <= y <= self.count(),
        ensures
            self.comparator.less(self.key_of(y), key) <==> self.place_of(y) < lower_bound(
                &self.comparator,
                self@,
                key,
            ),
            0 <= lower_bound(&self.comparator, self@, key) <= self.count(),
    {
        lemma_lower_bound(&self.comparator, self@, key);
        let i = self.place_of(y);
        assert(self.order@[i] == y);
        assert(self@[i] == self.key_of(y));
    }

    /// On the lowest level a link leads to the very next node.
    proof fn lemma_adjacent(&self, x: int)
        requires
            self.wf(),
            0 <= x <= self.count(),
        ensures
            self.bound_of(self.next_of(x, 0)) == self.place_of(x) + 1,
    {
        assert(self.link_ok(x, 0));
        if x != 0 {
            assert(1 <= self.height_of(x));
        }
        let here = self.place_of(x);
        if self.bound_of(self.next_of(x, 0)) > here + 1 {
            let z = self.order@[here + 1];
            assert(self.place_of(z) == here + 1);
            assert(1 <= self.height_of(z));
        }
    }

    /// Above the greatest height the head is linked to nothing.
    proof fn lemma_head_above(&self, l: int)
        requires
            self.wf(),
            self.max_height <= l < MAX_HEIGHT,
        ensures
            self.next_of(0, l) == 0,
    {
        assert(self.link_ok(0, l));
        let y = self.next_of(0, l);
        if y != 0 {
            assert(self.height_of(y) <= self.max_height);
        }
    }

    /// Whether `p` is the last node before place `at` that has level `l`.
    spec fn prev_ok(&self, p: int, l: int, at: int) -> bool {
        &&& 0 <= p <= self.count()
        &&& self.height_of(p) > l
        &&& self.place_of(p) < at <= self.bound_of(self.next_of(p, l))
    }

    /// Finds the first node whose key does not come before `key` (0 where
    /// there is none), and on each level the last node before it.
    fn find_greater_or_equal(&self, key: &K) -> (r: (usize, Vec<usize>))
        requires
            self.wf(),
            self.comparator.valid(*key),
        ensures
            r.0 <= self.count(),
            self.bound_of(r.0 as int) == lower_bound(&self.comparator, self@, *key),
            r.1@.len() == MAX_HEIGHT,
            forall|l: int|
                0 <= l < MAX_HEIGHT ==> self.prev_ok(
                    #[trigger] r.1@[l] as int,
                    l,
                    lower_bound(&self.comparator, self@, *key),
                ),
    {
        let ghost at = lower_bound(&self.comparator, self@, *key);
        let mut prev: Vec<usize> = vec![0usize; MAX_HEIGHT];
        let mut x: usize = 0;
        let mut level: usize = self.max_height - 1;
        proof {
            lemma_lower_bound(&self.comparator, self@, *key);
            assert forall|l: int| level < l < MAX_HEIGHT implies self.prev_ok(
                #[trigger] prev@[l] as int,
                l,
                at,
            ) by {
                self.lemma_head_above(l);
            }
        }
        loop
            invariant
                self.wf(),
                self.comparator.valid(*key),
                at == lower_bound(&self.comparator, self@, *key),
                0 <= at <= self.count(),
                x <= self.count(),
                level < self.max_height,
                self.height_of(x as int) > level,
                self.place_of(x as int) < at,
                prev@.len() == MAX_HEIGHT,
                forall|l: int|
                    level < l < MAX_HEIGHT ==> self.prev_ok(#[trigger] prev@[l] as int, l, at),
            decreases level, self.count() - self.place_of(x as int),
        {
            let next = self.link(x, level);
            assert(self.link_ok(x as int, level as int));
            let after = if next != 0 {
                proof {
                    self.lemma_place_less(next as int, *key);
                }
                self.less_than(self.key_at(next), key)
            } else {
                false
            };
            if after {
                x = next;
            } else {
                prev[level] = x;
                assert(self.prev_ok(x as int, level as int, at));
                if level == 0 {
                    proof {
                        self.lemma_adjacent(x as int);
                    }
                    return (next, prev);
                }
                level -= 1;
            }
        }
    }

    /// Finds the last node whose key comes before `key`; 0, the head, where
    /// there is none.
    fn find_less_than(&self, key: &K) -> (x: usize)
        requires
            self.wf(),
            self.comparator.valid(*key),
        ensures
            x <= self.count(),
            self.place_of(x as int) == lower_bound(&self.comparator, self@, *key) - 1,
    {
        let ghost at = lower_bound(&self.comparator, self@, *key);
        let mut x: usize = 0;
        let mut level: usize = self.max_height - 1;
        proof {
            lemma_lower_bound(&self.comparator, self@, *key);
        }
        loop
            invariant
                self.wf(),
                self.comparator.valid(*key),
                at == lower_bound(&self.comparator, self@, *key),
                0 <= at <= self.count(),
                x <= self.count(),
                level < self.max_height,
                self.height_of(x as int) > level,
                self.place_of(x as int) < at,
            decreases level, self.count() - self.place_of(x as int),
        {
            let next = self.link(x, level);
            assert(self.link_ok(x as int, level as int));
            let after = if next != 0 {
                proof {
                    self.lemma_place_less(next as int, *key);
                }
                self.less_than(self.key_at(next), key)
            } else {
                false
            };
            if after {
                x = next;
            } else {
                if level == 0 {
                    proof {
                        self.lemma_adjacent(x as int);
                    }
                    return x;
                }
                level -= 1;
            }
        }
    }

    /// Finds the last node; 0, the head, where the list is empty.
    fn find_last(&self) -> (x: usize)
        requires
            self.wf(),
        ensures
            x <= self.count(),
            self.place_of(x as int) == self.count() - 1,
    {
        let mut x: usize = 0;
        let mut level: usize = self.max_height - 1;
        loop
            invariant
                self.wf(),
                x <= self.count(),
                level < self.max_height,
                self.height_of(x as int) > level,
            decreases level, self.count() - self.place_of(x as int),
        {
            let next = self.link(x, level);
            assert(self.link_ok(x as int, level as int));
            if next != 0 {
                x = next;
            } else {
                if level == 0 {
                    proof {
                        self.lemma_adjacent(x as int);
                    }
                    return x;
                }
                level -= 1;
            }
        }
    }

    /// Whether `s` is `o` with one more node, number `o.count() + 1`, of
    /// `height` levels and with the key `key`, at place `at`; linked in
    /// behind the nodes `prev` on the levels below `done`, and itself linked
    /// to what those nodes were linked to.
    spec fn relinked(
        o: &Self,
        s: &Self,
        prev: Seq<usize>,
        height: int,
        done: int,
        at: int,
        key: K,
    ) -> bool {
        let n = o.count();
        &&& s.count() == n + 1
        &&& s.head@.len() == MAX_HEIGHT
        &&& s.comparator == o.comparator
        &&& 1 <= height <= MAX_HEIGHT
        &&& 0 <= done <= height
        &&& s.max_height == if height > o.max_height {
            height
        } else {
            o.max_height as int
        }
        &&& s.order@ == o.order@.insert(at, n + 1)
        &&& s.place@ == Seq::new(
            (n + 1) as nat,
            |j: int|
                if j < n {
                    shift(o.place@[j], at)
                } else {
                    at
                },
        )
        &&& forall|x: int| 1 <= x <= n ==> #[trigger] s.height_of(x) == o.height_of(x)
        &&& forall|x: int| 1 <= x <= n ==> #[trigger] s.key_of(x) == o.key_of(x)
        &&& s.height_of(n + 1) == height
        &&& s.key_of(n + 1) == key
        &&& forall|x: int, l: int|
            0 <= x <= n && 0 <= l < o.height_of(x) ==> #[trigger] s.next_of(x, l) == (if l < done
                && x == prev[l] {
                n + 1
            } else {
                o.next_of(x, l)
            })
        &&& forall|l: int|
            0 <= l < height ==> #[trigger] s.next_of(n + 1, l) == o.next_of(prev[l] as int, l)
    }

    /// A list that got a new node at the lower bound of its key, linked in
    /// on every level that it has, is well formed and holds the key there.
    #[verifier::rlimit(30)]
    proof fn lemma_inserted(o: &Self, s: &Self, prev: Seq<usize>, height: int, at: int, key: K)
        requires
            o.wf(),
            o.comparator.valid(key),
            at == lower_bound(&o.comparator, o@, key),
            prev.len() == MAX_HEIGHT,
            forall|l: int| 0 <= l < MAX_HEIGHT ==> o.prev_ok(#[trigger] prev[l] as int, l, at),
            Self::relinked(o, s, prev, height, height, at, key),
        ensures
            s.wf(),
            s@ == o@.insert(at, key),
    {
        let n = o.count();
        let id = n + 1;
        lemma_lower_bound(&o.comparator, o@, key);
        lemma_insert_sorted(&o.comparator, o@, key);
        // Places move up by one from `at` on.
        assert forall|x: int| 0 <= x <= n implies #[trigger] s.place_of(x) == shift(
            o.place_of(x),
            at,
        ) by {}
        assert(s.place_of(id) == at);
        assert forall|x: int| 1 <= x <= id implies 0 <= #[trigger] s.place_of(x) < id
            && s.order@[s.place_of(x)] == x by {
            if x <= n {
                assert(0 <= o.place_of(x) < n && o.order@[o.place_of(x)] == x);
            }
        }
        assert forall|i: int| 0 <= i < id implies 1 <= #[trigger] s.order@[i] <= id && s.place_of(
            s.order@[i],
        ) == i by {
            if i < at {
                assert(1 <= o.order@[i] <= n && o.place_of(o.order@[i]) == i);
            } else if i > at {
                assert(1 <= o.order@[i - 1] <= n && o.place_of(o.order@[i - 1]) == i - 1);
            }
        }
        assert(s@ =~= o@.insert(at, key)) by {
            assert forall|i: int| 0 <= i < id implies s@[i] == o@.insert(at, key)[i] by {
                if i < at {
                    assert(1 <= o.order@[i] <= n);
                    assert(s.key_of(o.order@[i]) == o.key_of(o.order@[i]));
                } else if i > at {
                    assert(1 <= o.order@[i - 1] <= n);
                    assert(s.key_of(o.order@[i - 1]) == o.key_of(o.order@[i - 1]));
                }
            }
        }
        assert forall|x: int| 1 <= x <= id implies 1 <= #[trigger] s.height_of(x)
            <= s.max_height by {
            if x <= n {
                assert(1 <= o.height_of(x) <= o.max_height);
            }
        }
        assert forall|x: int| 1 <= x <= id implies s.comparator.valid(#[trigger] s.key_of(x)) by {
            if x <= n {
                assert(o.comparator.valid(o.key_of(x)));
            }
        }
        assert(s.frame_ok());
        assert forall|x: int, l: int|
            0 <= x <= s.count() && 0 <= l < s.height_of(x) implies #[trigger] s.link_ok(x, l) by {
            Self::lemma_link_inserted(o, s, prev, height, at, key, x, l);
        }
    }

    /// The link of `x` on level `l` in a list that got a new node.
    #[verifier::rlimit(30)]
    proof fn lemma_link_inserted(
        o: &Self,
        s: &Self,
        prev: Seq<usize>,
        height: int,
        at: int,
        key: K,
        x: int,
        l: int,
    )
        requires
            o.wf(),
            0 <= at <= o.count(),
            prev.len() == MAX_HEIGHT,
            forall|l: int| 0 <= l < MAX_HEIGHT ==> o.prev_ok(#[trigger] prev[l] as int, l, at),
            Self::relinked(o, s, prev, height, height, at, key),
            0 <= x <= s.count(),
            0 <= l < s.height_of(x),
        ensures
            s.link_ok(x, l),
    {
        let n = o.count();
        let id = n + 1;
        assert forall|z: int| 0 <= z <= n implies #[trigger] s.place_of(z) == shift(
            o.place_of(z),
            at,
        ) by {}
        assert(s.place_of(id) == at);
        assert forall|z: int| 1 <= z <= n implies #[trigger] s.height_of(z) == o.height_of(z) by {}
        if x == id {
            // The new node is linked to what its predecessor was linked to.
            let p = prev[l] as int;
            assert(o.prev_ok(p, l, at));
            assert(o.link_ok(p, l));
            let y = o.next_of(p, l);
            assert(s.next_of(id, l) == y);
            assert(s.bound_of(y) == shift(o.bound_of(y), at));
            assert forall|z: int|
                1 <= z <= s.count() && s.place_of(x) < #[trigger] s.place_of(z) < s.bound_of(
                    y,
                ) implies s.height_of(z) <= l by {
                assert(z != id);
                assert(o.place_of(p) < o.place_of(z) < o.bound_of(y));
            }
        } else if l < height && x == prev[l] {
            // A predecessor is linked to the new node.
            assert(o.prev_ok(x, l, at));
            assert(o.link_ok(x, l));
            assert(s.next_of(x, l) == id);
            assert forall|z: int|
                1 <= z <= s.count() && s.place_of(x) < #[trigger] s.place_of(z) < s.bound_of(
                    id,
                ) implies s.height_of(z) <= l by {
                assert(z != id);
                assert(o.place_of(x) < o.place_of(z) < o.bound_of(o.next_of(x, l)));
            }
        } else {
            // Every other link is as it was.
            assert(o.link_ok(x, l));
            let y = o.next_of(x, l);
            assert(s.next_of(x, l) == y);
            assert(s.bound_of(y) == shift(o.bound_of(y), at));
            assert forall|z: int|
                1 <= z <= s.count() && s.place_of(x) < #[trigger] s.place_of(z) < s.bound_of(
                    y,
                ) implies s.height_of(z) <= l by {
                if z == id {
                    if l < height {
                        // Then `x` and `prev[l]` would both be the last node
                        // of level `l` before the new one.
                        let p = prev[l] as int;
                        assert(o.prev_ok(p, l, at));
                        assert(o.link_ok(p, l));
                        assert(o.place_of(x) < at <= o.bound_of(y));
                        if o.place_of(x) < o.place_of(p) {
                            assert(p != 0);
                            assert(o.place_of(x) < o.place_of(p) < o.bound_of(y));
                            assert(o.height_of(p) <= l);
                        } else if o.place_of(p) < o.place_of(x) {
                            assert(x != 0);
                            assert(o.place_of(p) < o.place_of(x) < o.bound_of(o.next_of(p, l)));
                            assert(o.height_of(x) <= l);
                        } else {
                            if x != 0 && p != 0 {
                                assert(o.order@[o.place_of(x)] == x);
                                assert(o.order@[o.place_of(p)] == p);
                            } else if x != 0 {
                                assert(0 <= o.place_of(x));
                            } else if p != 0 {
                                assert(0 <= o.place_of(p));
                            }
                            assert(x == p);
                        }
                    }
                } else {
                    assert(o.place_of(x) < o.place_of(z) < o.bound_of(y));
                }
            }
        }
    }

    /// Links node `x` on `level` to `to`.
    fn set_link(&mut self, x: usize, level: usize, to: usize)
        requires
            old(self).head@.len() == MAX_HEIGHT,
            x <= old(self).count(),
            level < old(self).height_of(x as int),
        ensures
            final(self).head@.len() == MAX_HEIGHT,
            final(self).count() == old(self).count(),
            final(self).comparator == old(self).comparator,
            final(self).max_height == old(self).max_height,
            final(self).order == old(self).order,
            final(self).place == old(self).place,
            final(self).rand == old(self).rand,
            forall|z: int|
                1 <= z <= old(self).count() ==> #[trigger] final(self).height_of(z) == old(
                    self,
                ).height_of(z),
            forall|z: int|
                1 <= z <= old(self).count() ==> #[trigger] final(self).key_of(z) == old(
                    self,
                ).key_of(z),
            forall|z: int, l: int|
                0 <= z <= old(self).count() && 0 <= l < old(self).height_of(z)
                    ==> #[trigger] final(self).next_of(z, l) == (if z == x && l == level {
                    to as int
                } else {
                    old(self).next_of(z, l)
                }),
    {
        if x == 0 {
            self.head[level] = to;
        } else {
            self.nodes[x - 1].set_next(level, to);
        }
    }

    /// Puts `key` into the list, before the keys that do not come before
    /// it.
    #[verifier::rlimit(30)]
    pub fn insert(&mut self, key: K)
        requires
            old(self).wf(),
            old(self).key_order().valid(key),
            old(self)@.len() < usize::MAX,
        ensures
            final(self).wf(),
            final(self).key_order() == old(self).key_order(),
            final(self)@ == old(self)@.insert(
                lower_bound(old(self).key_order(), old(self)@, key),
                key,
            ),
            final(self).max_height() == if height_from(old(self).seed(), 1) > old(
                self,
            ).max_height() {
                height_from(old(self).seed(), 1)
            } else {
                old(self).max_height()
            },
            final(self).seed() == seed_after_height(old(self).seed(), 1),
    {
        let (_, prev) = self.find_greater_or_equal(&key);
        let ghost o = *self;
        let ghost at = lower_bound(&self.comparator, self@, key);
        proof {
            lemma_lower_bound(&self.comparator, self@, key);
        }
        let height = Self::random_height(&mut self.rand);
        if height > self.max_height {
            // The levels above the old greatest height start at the head,
            // which `prev` names there already.
            self.max_height = height;
        }
        let n = self.nodes.len();
        let id: usize = n + 1;
        let mut node = Node::new_node(key, height);
        let mut i: usize = 0;
        while i < height
            invariant
                i <= height <= MAX_HEIGHT,
                o.wf(),
                prev@.len() == MAX_HEIGHT,
                forall|l: int| 0 <= l < MAX_HEIGHT ==> o.prev_ok(#[trigger] prev@[l] as int, l, at),
                self.head == o.head,
                self.nodes == o.nodes,
                self.rand.seed() == seed_after_height(old(self).seed(), 1),
                self.max_height == if height > old(self).max_height {
                    height
                } else {
                    old(self).max_height
                },
                node.key == key,
                node.next@.len() == height,
                forall|l: int| 0 <= l < i ==> #[trigger] node.next@[l] == o.next_of(
                    prev@[l] as int,
                    l,
                ),
            decreases height - i,
        {
            let p = prev[i];
            assert(o.prev_ok(p as int, i as int, at));
            let next = if p == 0 {
                self.head[i]
            } else {
                self.nodes[p - 1].next(i)
            };
            node.set_next(i, next);
            i += 1;
        }
        self.nodes.push(node);
        proof {
            self.order = Ghost(o.order@.insert(at, id as int));
            self.place = Ghost(
                Seq::new(
                    (n + 1) as nat,
                    |j: int|
                        if j < n {
                            shift(o.place@[j], at)
                        } else {
                            at
                        },
                ),
            );
        }
        let mut i: usize = 0;
        while i < height
            invariant
                i <= height <= MAX_HEIGHT,
                o.wf(),
                n == o.count(),
                id == n + 1,
                prev@.len() == MAX_HEIGHT,
                forall|l: int| 0 <= l < MAX_HEIGHT ==> o.prev_ok(#[trigger] prev@[l] as int, l, at),
                self.rand.seed() == seed_after_height(old(self).seed(), 1),
                self.max_height == if height > old(self).max_height {
                    height
                } else {
                    old(self).max_height
                },
                height == height_from(old(self).seed(), 1),
                Self::relinked(&o, &*self, prev@, height as int, i as int, at, key),
            decreases height - i,
        {
            let p = prev[i];
            assert(o.prev_ok(p as int, i as int, at));
            let ghost before = *self;
            self.set_link(p, i, id);
            proof {
                assert forall|x: int, l: int|
                    0 <= x <= n && 0 <= l < o.height_of(x) implies #[trigger] self.next_of(x, l)
                    == (if l < i + 1 && x == prev@[l] {
                    n + 1
                } else {
                    o.next_of(x, l)
                }) by {
                    assert(before.height_of(x) == o.height_of(x));
                    assert(before.next_of(x, l) == (if l < i && x == prev@[l] {
                        n + 1
                    } else {
                        o.next_of(x, l)
                    }));
                }
                assert forall|l: int| 0 <= l < height implies #[trigger] self.next_of(n + 1, l)
                    == o.next_of(prev@[l] as int, l) by {
                    assert(before.next_of(n + 1, l) == o.next_of(prev@[l] as int, l));
                    assert(before.height_of(n + 1) == height);
                }
                assert forall|x: int| 1 <= x <= n implies #[trigger] self.height_of(x)
                    == o.height_of(x) by {
                    assert(before.height_of(x) == o.height_of(x));
                }
                assert forall|x: int| 1 <= x <= n implies #[trigger] self.key_of(x) == o.key_of(
                    x,
                ) by {
                    assert(before.key_of(x) == o.key_of(x));
                }
                assert(self.height_of(n + 1) == before.height_of(n + 1));
                assert(self.key_of(n + 1) == before.key_of(n + 1));
            }
            i += 1;
        }
        proof {
            Self::lemma_inserted(&o, &*self, prev@, height as int, at, key);
        }
    }

    /// Whether the list holds a key equal to `key`.
    pub fn contains(&self, key: &K) -> (b: bool)
        requires
            self.wf(),
            self.key_order().valid(*key),
        ensures
            b == holds(self.key_order(), self@, *key),
    {
        let (x, _) = self.find_greater_or_equal(key);
        let ghost at = lower_bound(&self.comparator, self@, *key);
        proof {
            lemma_lower_bound(&self.comparator, self@, *key);
        }
        let found = if x == 0 {
            false
        } else {
            self.equal(key, self.key_at(x))
        };
        proof {
            let c = &self.comparator;
            if found {
                assert(!c.less(self@[at], *key) && !c.less(*key, self@[at]));
            } else {
                assert forall|i: int| 0 <= i < self@.len() && !c.less(#[trigger] self@[i], *key)
                    implies c.less(*key, self@[i]) by {
                    assert(i >= at);
                    assert(c.less(*key, self@[at]));
                    if i > at {
                        c.lemma_order(*key, self@[at], self@[i]);
                    }
                }
            }
        }
        found
    }
}

/// A position in a skiplist: at one of its keys, or at none.
pub struct Iter<'a, K, C: Cmp<K>> {
    list: &'a SkipList<K, C>,
    /// The node stood at; 0 where the position is at no key.
    node: usize,
}

impl<'a, K, C: Cmp<K>> Iter<'a, K, C> {
    /// The list that is walked.
    pub closed spec fn list(&self) -> &SkipList<K, C> {
        self.list
    }

    /// The place of the key stood at; the number of keys where the
    /// position is at none.
    pub closed spec fn position(&self) -> int {
        self.list.bound_of(self.node as int)
    }

    /// The invariant of an iterator: its list is well formed and its
    /// position lies within it.
    pub closed spec fn wf(&self) -> bool {
        &&& self.list.wf()
        &&& self.node <= self.list.count()
    }

    /// A well-formed iterator stands within its list.
    pub proof fn lemma_position(&self)
        requires
            self.wf(),
        ensures
            0 <= self.position() <= self.list()@.len(),
    {
        if self.node != 0 {
            assert(0 <= self.list.place_of(self.node as int) < self.list.count());
        }
    }

    /// An iterator over `list`, at no key yet.
    pub fn new(list: &'a SkipList<K, C>) -> (iter: Self)
        requires
            list.wf(),
        ensures
            iter.wf(),
            iter.list() == list,
            iter.position() == list@.len(),
    {
        Iter { list, node: 0 }
    }

    /// Returns true iff the iterator is positioned at a key.
    pub fn valid(&self) -> (b: bool)
        requires
            self.wf(),
        ensures
            b == (self.position() < self.list()@.len()),
    {
        proof {
            self.lemma_position();
            if self.node != 0 {
                assert(self.list.place_of(self.node as int) < self.list.count());
            }
        }
        self.node != 0
    }

    /// Returns the key at the current position.
    pub fn key(&self) -> (k: &'a K)
        requires
            self.wf(),
            self.position() < self.list()@.len(),
        ensures
            *k == self.list()@[self.position()],
            self.list().key_order().valid(*k),
    {
        self.list.key_at(self.node)
    }

    /// Advances to the next position.
    pub fn next(&mut self)
        requires
            old(self).wf(),
            old(self).position() < old(self).list()@.len(),
        ensures
            final(self).wf(),
            final(self).list() == old(self).list(),
            final(self).position() == old(self).position() + 1,
    {
        proof {
            self.list.lemma_adjacent(self.node as int);
            assert(1 <= self.list.height_of(self.node as int));
        }
        self.node = self.list.link(self.node, 0);
    }

    /// Moves back to the last key that comes strictly before the current
    /// one; to no key where there is none.
    pub fn prev(&mut self)
        requires
            old(self).wf(),
            old(self).position() < old(self).list()@.len(),
        ensures
            final(self).wf(),
            final(self).list() == old(self).list(),
            ({
                let list = old(self).list();
                let at = lower_bound(list.key_order(), list@, list@[old(self).position()]);
                final(self).position() == if at == 0 {
                    list@.len() as int
                } else {
                    at - 1
                }
            }),
    {
        let key = self.list.key_at(self.node);
        proof {
            lemma_lower_bound(&self.list.comparator, self.list@, *key);
        }
        self.node = self.list.find_less_than(key);
    }

    /// Advances to the first key that does not come before `target`.
    pub fn seek(&mut self, target: &K)
        requires
            old(self).wf(),
            old(self).list().key_order().valid(*target),
        ensures
            final(self).wf(),
            final(self).list() == old(self).list(),
            final(self).position() == lower_bound(
                old(self).list().key_order(),
                old(self).list()@,
                *target,
            ),
    {
        let (node, _) = self.list.find_greater_or_equal(target);
        self.node = node;
    }

    /// Moves to the first key; to no key where the list is empty.
    pub fn seek_to_first(&mut self)
        requires
            old(self).wf(),
        ensures
            final(self).wf(),
            final(self).list() == old(self).list(),
            final(self).position() == 0,
    {
        proof {
            self.list.lemma_adjacent(0);
        }
        self.node = self.list.link(0, 0);
    }

    /// Moves to the last key; to no key where the list is empty.
    pub fn seek_to_last(&mut self)
        requires
            old(self).wf(),
        ensures
            final(self).wf(),
            final(self).list() == old(self).list(),
            final(self).position() == if old(self).list()@.len() == 0 {
                0
            } else {
                old(self).list()@.len() - 1
            },
    {
        self.node = self.list.find_last();
    }
}

} // verus!
