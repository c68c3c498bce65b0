use vstd::prelude::*;
use crate::tree::{HTree, height, leaf_count, symbols};

verus! {

/// Number of occurrences of `b` in `s`.
pub open spec fn count_of(s: Seq<u8>, b: u8) -> nat
    decreases s.len(),
{
    if s.len() == 0 {
        0
    } else {
        count_of(s.drop_last(), b) + if s.last() == b {
            1nat
        } else {
            0nat
        }
    }
}

/// Sum of the first `n` counts.
pub open spec fn sum_counts(f: Seq<u64>, n: nat) -> nat
    decreases n,
{
    if n == 0 {
        0
    } else {
        sum_counts(f, (n - 1) as nat) + f[n - 1] as nat
    }
}

/// A node waiting in the queue: a subtree and its weight.
pub struct Entry {
    pub weight: u64,
    pub tree: HTree,
}

/// One leaf per byte value below `n` whose count is non-zero, in increasing
/// byte order: this order is the insertion order that breaks ties.
pub open spec fn leaves_upto(f: Seq<u64>, n: nat) -> Seq<Entry>
    decreases n,
{
    if n == 0 {
        Seq::empty()
    } else {
        let q = leaves_upto(f, (n - 1) as nat);
        if f[n - 1] > 0 {
            q.push(Entry { weight: f[n - 1], tree: HTree::Leaf((n - 1) as u8) })
        } else {
            q
        }
    }
}

/// Position of the lightest entry; among equal weights, the earliest one.
pub open spec fn min_pos(q: Seq<Entry>) -> int
    decreases q.len(),
{
    if q.len() <= 1 {
        0
    } else {
        let j = min_pos(q.drop_last());
        if q.last().weight < q[j].weight {
            q.len() - 1
        } else {
            j
        }
    }
}

/// The internal node made of the first-removed (lighter) entry `a` and the
/// second-removed entry `b`: `b` goes left, `a` goes right.
pub open spec fn combine(a: Entry, b: Entry) -> Entry {
    Entry {
        weight: (a.weight + b.weight) as u64,
        tree: HTree::Node(Box::new(b.tree), Box::new(a.tree)),
    }
}

/// One merge: remove the two lightest entries and append their combination.
pub open spec fn merge_step(q: Seq<Entry>) -> Seq<Entry> {
    let i = min_pos(q);
    let q1 = q.remove(i);
    let j = min_pos(q1);
    q1.remove(j).push(combine(q[i], q1[j]))
}

/// Repeats `merge_step` until one entry is left, and yields its tree.
pub open spec fn merge_all(q: Seq<Entry>) -> HTree
    decreases q.len(),
{
    if q.len() <= 1 {
        q[0].tree
    } else {
        let q2 = merge_step(q);
        if q2.len() < q.len() {
            merge_all(q2)
        } else {
            q[0].tree
        }
    }
}

/// The code tree built from 256 byte counts. Where exactly one byte value
/// occurs, its leaf gets a placeholder sibling (a second leaf for the same
/// byte that no code leads to), so that its code is one bit long.
pub open spec fn tree_of_counts(f: Seq<u64>) -> HTree {
    let q = leaves_upto(f, 256);
    if q.len() == 1 {
        HTree::Node(Box::new(q[0].tree), Box::new(q[0].tree))
    } else {
        merge_all(q)
    }
}

pub open spec fn sum_weights(q: Seq<Entry>) -> nat
    decreases q.len(),
{
    if q.len() == 0 {
        0
    } else {
        sum_weights(q.drop_last()) + q.last().weight as nat
    }
}

proof fn lemma_min_pos_range(q: Seq<Entry>)
    requires
        q.len() >= 1,
    ensures
        0 <= min_pos(q) < q.len(),
    decreases q.len(),
{
    if q.len() > 1 {
        lemma_min_pos_range(q.drop_last());
    }
}

proof fn lemma_sum_weights_remove(q: Seq<Entry>, i: int)
    requires
        0 <= i < q.len(),
    ensures
        sum_weights(q) == sum_weights(q.remove(i)) + q[i].weight,
    decreases q.len(),
{
    if i == q.len() - 1 {
        assert(q.remove(i) =~= q.drop_last());
    } else {
        lemma_sum_weights_remove(q.drop_last(), i);
        assert(q.remove(i).drop_last() =~= q.drop_last().remove(i));
    }
}

proof fn lemma_merge_step_len(q: Seq<Entry>)
    requires
        q.len() >= 2,
    ensures
        merge_step(q).len() == q.len() - 1,
        0 <= min_pos(q) < q.len(),
        0 <= min_pos(q.remove(min_pos(q))) < q.len() - 1,
{
    lemma_min_pos_range(q);
    lemma_min_pos_range(q.remove(min_pos(q)));
}

/// Counts the occurrences of each byte value.
pub fn byte_counts(input: &[u8]) -> (r: Vec<u64>)
    ensures
        r.len() == 256,
        forall|b: u8| #[trigger] r@[b as int] == count_of(input@, b),
{
    let mut counts: Vec<u64> = Vec::new();
    let mut k: usize = 0;
    while k < 256
        invariant
            k <= 256,
            counts.len() == k,
            forall|j: int| 0 <= j < k ==> counts@[j] == 0,
        decreases 256 - k,
    {
        counts.push(0);
        k = k + 1;
    }
    let mut i: usize = 0;
    while i < input.len()
        invariant
            i <= input.len(),
            counts.len() == 256,
            forall|b: u8| #[trigger] counts@[b as int] == count_of(input@.subrange(0, i as int), b),
            forall|b: u8| #[trigger] counts@[b as int] <= i,
        decreases input.len() - i,
    {
        let x = input[i];
        let ghost pre = input@.subrange(0, i as int);
        let ghost prev = counts@;
        let c = counts[x as usize];
        counts.set(x as usize, c + 1);
        i = i + 1;
        proof {
            let cur = input@.subrange(0, i as int);
            assert(cur.drop_last() =~= pre);
            assert forall|b: u8| #[trigger] counts@[b as int] == count_of(cur, b) by {
                if b != x {
                    assert(counts@[b as int] == prev[b as int]);
                }
            }
        }
    }
    assert(input@.subrange(0, input@.len() as int) =~= input@);
    counts
}

/// Position of the lightest entry of a non-empty queue, the earliest among
/// equal weights.
pub fn min_index(q: &Vec<Entry>) -> (r: usize)
    requires
        q.len() >= 1,
    ensures
        r == min_pos(q@),
        r < q.len(),
{
    let mut best: usize = 0;
    let mut i: usize = 1;
    while i < q.len()
        invariant
            1 <= i <= q.len(),
            best == min_pos(q@.subrange(0, i as int)),
            best < i,
        decreases q.len() - i,
    {
        proof {
            let s = q@.subrange(0, i + 1);
            assert(s.drop_last() =~= q@.subrange(0, i as int));
        }
        if q[i].weight < q[best].weight {
            best = i;
        }
        i = i + 1;
    }
    assert(q@.subrange(0, i as int) =~= q@);
    best
}

/// The priority queue of the builder: entries in insertion order, of which
/// `pop_min` takes the lightest, the earliest inserted among equal weights.
/// It holds at most 256 entries, so a scan for the minimum is cheap.
pub struct MinQueue {
    entries: Vec<Entry>,
}

impl MinQueue {
    /// The entries, in insertion order.
    pub closed spec fn view(&self) -> Seq<Entry> {
        self.entries@
    }

    pub fn new() -> (q: MinQueue)
        ensures
            q@ == Seq::<Entry>::empty(),
    {
        MinQueue { entries: Vec::new() }
    }

    pub fn len(&self) -> (n: usize)
        ensures
            n == self@.len(),
    {
        self.entries.len()
    }

    pub fn push(&mut self, e: Entry)
        ensures
            final(self)@ == old(self)@.push(e),
    {
        self.entries.push(e);
    }

    /// Removes and returns the entry at `min_pos`.
    pub fn pop_min(&mut self) -> (e: Entry)
        requires
            old(self)@.len() >= 1,
        ensures
            e == old(self)@[min_pos(old(self)@)],
            final(self)@ == old(self)@.remove(min_pos(old(self)@)),
    {
        let i = min_index(&self.entries);
        self.entries.remove(i)
    }
}

/// Builds the code tree of 256 byte counts, at least one of them non-zero:
/// one leaf per occurring byte, then the two lightest nodes are merged until
/// one is left (see `tree_of_counts`).
pub fn build_tree(counts: &Vec<u64>) -> (t: HTree)
    requires
        counts.len() == 256,
        leaves_upto(counts@, 256).len() >= 1,
        sum_counts(counts@, 256) <= u64::MAX,
    ensures
        t == tree_of_counts(counts@),
{
    let mut q = MinQueue::new();
    let mut b: usize = 0;
    while b < 256
        invariant
            b <= 256,
            counts.len() == 256,
            q@ == leaves_upto(counts@, b as nat),
            sum_weights(q@) == sum_counts(counts@, b as nat),
            forall|k: int| 0 <= k < q@.len() ==> (#[trigger] q@[k]).tree is Leaf,
        decreases 256 - b,
    {
        if counts[b] > 0 {
            q.push(Entry { weight: counts[b], tree: HTree::Leaf(b as u8) });
            proof {
                assert(q@.drop_last() =~= leaves_upto(counts@, b as nat));
            }
        }
        b = b + 1;
    }
    let ghost q0 = q@;
    if q.len() == 1 {
        // a lone leaf gets a placeholder sibling for the same byte
        let e = q.pop_min();
        match e.tree {
            HTree::Leaf(s) => {
                return HTree::Node(Box::new(HTree::Leaf(s)), Box::new(HTree::Leaf(s)));
            },
            HTree::Node(l, r) => {
                return HTree::Node(l, r);
            },
        }
    }
    while q.len() > 1
        invariant
            q@.len() >= 1,
            merge_all(q@) == merge_all(q0),
            sum_weights(q@) == sum_counts(counts@, 256),
            sum_counts(counts@, 256) <= u64::MAX,
        decreases q@.len(),
    {
        let ghost qs = q@;
        proof {
            lemma_merge_step_len(qs);
        }
        let a = q.pop_min();
        let ghost q1 = q@;
        let c = q.pop_min();
        proof {
            lemma_sum_weights_remove(qs, min_pos(qs));
            lemma_sum_weights_remove(q1, min_pos(q1));
        }
        q.push(Entry { weight: a.weight + c.weight, tree: HTree::Node(Box::new(c.tree), Box::new(a.tree)) });
        proof {
            assert(q@ =~= merge_step(qs));
            assert(q@.drop_last() =~= q1.remove(min_pos(q1)));
        }
    }
    q.pop_min().tree
}

/// Byte values carried by the leaves of all entries.
pub open spec fn queue_symbols(q: Seq<Entry>) -> Set<u8>
    decreases q.len(),
{
    if q.len() == 0 {
        Set::empty()
    } else {
        queue_symbols(q.drop_last()).union(symbols(q.last().tree))
    }
}

/// Leaves over all entries.
pub open spec fn queue_leaves(q: Seq<Entry>) -> nat
    decreases q.len(),
{
    if q.len() == 0 {
        0
    } else {
        queue_leaves(q.drop_last()) + leaf_count(q.last().tree)
    }
}

proof fn lemma_queue_remove(q: Seq<Entry>, i: int)
    requires
        0 <= i < q.len(),
    ensures
        queue_symbols(q) == queue_symbols(q.remove(i)).union(symbols(q[i].tree)),
        queue_leaves(q) == queue_leaves(q.remove(i)) + leaf_count(q[i].tree),
    decreases q.len(),
{
    if i == q.len() - 1 {
        assert(q.remove(i) =~= q.drop_last());
    } else {
        lemma_queue_remove(q.drop_last(), i);
        assert(q.remove(i).drop_last() =~= q.drop_last().remove(i));
        let a = queue_symbols(q.drop_last().remove(i));
        let b = symbols(q[i].tree);
        let c = symbols(q.last().tree);
        assert(a.union(b).union(c) =~= a.union(c).union(b));
    }
}

/// Merging keeps every leaf: the tree built from a queue carries exactly the
/// queue's leaves, and is an internal node where the queue has two entries.
proof fn lemma_merge_all(q: Seq<Entry>)
    requires
        q.len() >= 1,
    ensures
        symbols(merge_all(q)) == queue_symbols(q),
        leaf_count(merge_all(q)) == queue_leaves(q),
        q.len() >= 2 ==> merge_all(q) is Node,
    decreases q.len(),
{
    if q.len() == 1 {
        assert(q.drop_last() =~= Seq::<Entry>::empty());
        assert(queue_symbols(q.drop_last()) == Set::<u8>::empty());
        assert(queue_leaves(q.drop_last()) == 0);
        assert(queue_symbols(q) =~= symbols(q[0].tree));
    } else {
        lemma_merge_step_len(q);
        let i = min_pos(q);
        let q1 = q.remove(i);
        let j = min_pos(q1);
        let q2 = merge_step(q);
        lemma_queue_remove(q, i);
        lemma_queue_remove(q1, j);
        assert(q2.drop_last() =~= q1.remove(j));
        lemma_merge_all(q2);
        let x = queue_symbols(q1.remove(j));
        assert(x.union(symbols(q1[j].tree)).union(symbols(q[i].tree)) =~= x.union(
            symbols(q1[j].tree).union(symbols(q[i].tree)),
        ));
        if q2.len() >= 2 {
        } else {
            assert(q2.len() == 1);
            assert(merge_all(q2) == q2[0].tree);
        }
    }
}

pub proof fn lemma_leaves_upto(f: Seq<u64>, n: nat)
    requires
        n <= 256,
        f.len() == 256,
    ensures
        forall|b: u8|
            #![trigger queue_symbols(leaves_upto(f, n)).contains(b)]
            queue_symbols(leaves_upto(f, n)).contains(b) <==> (b < n && f[b as int] > 0),
        queue_leaves(leaves_upto(f, n)) == leaves_upto(f, n).len(),
        leaves_upto(f, n).len() <= n,
    decreases n,
{
    if n > 0 {
        lemma_leaves_upto(f, (n - 1) as nat);
        let q = leaves_upto(f, (n - 1) as nat);
        let qn = leaves_upto(f, n);
        if f[n - 1] > 0 {
            assert(qn.drop_last() =~= q);
            assert(symbols(qn.last().tree) =~= set![(n - 1) as u8]);
        }
        assert forall|b: u8|
            #![trigger queue_symbols(qn).contains(b)]
            queue_symbols(qn).contains(b) <==> (b < n && f[b as int] > 0) by {
            assert(queue_symbols(q).contains(b) <==> (b < n - 1 && f[b as int] > 0));
        }
    }
}

/// Height is below the number of leaves.
proof fn lemma_height_leaves(t: HTree)
    ensures
        height(t) < leaf_count(t),
    decreases t,
{
    match t {
        HTree::Leaf(_) => {},
        HTree::Node(l, r) => {
            lemma_height_leaves(*l);
            lemma_height_leaves(*r);
        },
    }
}

/// The tree built from the counts carries exactly the bytes that occur, is an
/// internal node, and is at most 255 levels deep.
pub proof fn lemma_tree_of_counts(f: Seq<u64>)
    requires
        f.len() == 256,
        leaves_upto(f, 256).len() >= 1,
    ensures
        forall|b: u8| #[trigger] symbols(tree_of_counts(f)).contains(b) <==> f[b as int] > 0,
        tree_of_counts(f) is Node,
        height(tree_of_counts(f)) <= 255,
{
    let q = leaves_upto(f, 256);
    lemma_leaves_upto(f, 256);
    let t = tree_of_counts(f);
    if q.len() == 1 {
        assert(q.drop_last() =~= Seq::<Entry>::empty());
        assert(queue_symbols(q.drop_last()) == Set::<u8>::empty());
        assert(queue_leaves(q.drop_last()) == 0);
        assert(queue_symbols(q) =~= symbols(q[0].tree));
        assert(leaf_count(q[0].tree) == 1);
        lemma_height_leaves(q[0].tree);
        assert(symbols(t) =~= symbols(q[0].tree));
    } else {
        lemma_merge_all(q);
        lemma_height_leaves(t);
    }
    assert forall|b: u8| #[trigger] symbols(t).contains(b) <==> f[b as int] > 0 by {
        assert(queue_symbols(q).contains(b) <==> (b < 256 && f[b as int] > 0));
    }
}

} // verus!
