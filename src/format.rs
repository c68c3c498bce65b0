use vstd::prelude::*;
use crate::tree::{HTree, height};

verus! {

/// Deepest tree that the reader accepts. Every tree built from 256 byte
/// values is at most 255 levels deep.
pub const MAX_DEPTH: usize = 256;

pub open spec fn pow256(n: nat) -> nat
    decreases n,
{
    if n == 0 {
        1
    } else {
        256 * pow256((n - 1) as nat)
    }
}

/// The `n` low bytes of `v`, least significant first.
pub open spec fn le_bytes(v: nat, n: nat) -> Seq<u8>
    decreases n,
{
    if n == 0 {
        Seq::empty()
    } else {
        seq![(v % 256) as u8] + le_bytes(v / 256, (n - 1) as nat)
    }
}

/// The number that `s` spells, least significant byte first.
pub open spec fn le_value(s: Seq<u8>) -> nat
    decreases s.len(),
{
    if s.len() == 0 {
        0
    } else {
        s[0] as nat + 256 * le_value(s.skip(1))
    }
}

pub proof fn lemma_le_round_trip(v: nat, n: nat)
    requires
        v < pow256(n),
    ensures
        le_bytes(v, n).len() == n,
        le_value(le_bytes(v, n)) == v,
    decreases n,
{
    if n > 0 {
        let p = pow256((n - 1) as nat);
        assert(v / 256 < p) by (nonlinear_arith)
            requires
                v < 256 * p,
        ;
        lemma_le_round_trip(v / 256, (n - 1) as nat);
        let s = le_bytes(v, n);
        assert(s.skip(1) =~= le_bytes(v / 256, (n - 1) as nat));
        assert(v == v % 256 + 256 * (v / 256)) by (nonlinear_arith);
    }
}

proof fn lemma_le_bound(s: Seq<u8>)
    ensures
        le_value(s) < pow256(s.len()),
    decreases s.len(),
{
    if s.len() > 0 {
        lemma_le_bound(s.skip(1));
        let x = le_value(s.skip(1));
        let p = pow256((s.len() - 1) as nat);
        assert(s[0] as nat + 256 * x < 256 * p) by (nonlinear_arith)
            requires
                x < p,
                s[0] < 256,
        ;
    }
}

/// Appends `v` as eight bytes, least significant first.
pub fn write_u64(out: &mut Vec<u8>, v: u64)
    ensures
        final(out)@ == old(out)@ + le_bytes(v as nat, 8),
{
    let mut x: u64 = v;
    let mut k: usize = 0;
    while k < 8
        invariant
            k <= 8,
            old(out)@ + le_bytes(v as nat, 8) == out@ + le_bytes(x as nat, (8 - k) as nat),
        decreases 8 - k,
    {
        let ghost pre = out@;
        out.push((x % 256) as u8);
        proof {
            let rest = le_bytes(x as nat / 256, (8 - k - 1) as nat);
            assert(le_bytes(x as nat, (8 - k) as nat) =~= seq![(x % 256) as u8] + rest);
            assert(pre + (seq![(x % 256) as u8] + rest) =~= out@ + rest);
        }
        x = x / 256;
        k = k + 1;
    }
    assert(out@ + le_bytes(x as nat, 0) =~= out@);
}

/// Reads the eight bytes at `at`, least significant first.
pub fn read_u64(a: &Vec<u8>, at: usize) -> (r: u64)
    requires
        at + 8 <= a.len(),
    ensures
        r == le_value(a@.subrange(at as int, at + 8)),
{
    let mut acc: u64 = 0;
    let mut k: usize = 8;
    proof {
        reveal_with_fuel(pow256, 9);
        assert(pow256(8) == 0x1_0000_0000_0000_0000);
    }
    while k > 0
        invariant
            k <= 8,
            at + 8 <= a.len(),
            acc == le_value(a@.subrange(at + k, at + 8)),
            pow256(8) == 0x1_0000_0000_0000_0000,
        decreases k,
    {
        let ghost s = a@.subrange(at + k - 1, at + 8);
        proof {
            assert(s.skip(1) =~= a@.subrange(at + k, at + 8));
            lemma_le_bound(s);
            assert(pow256(s.len()) <= pow256(8)) by {
                lemma_pow_mono(s.len(), 8);
            }
        }
        acc = a[at + k - 1] as u64 + 256 * acc;
        k = k - 1;
    }
    acc
}

proof fn lemma_pow_mono(m: nat, n: nat)
    requires
        m <= n,
    ensures
        pow256(m) <= pow256(n),
    decreases n,
{
    if m < n {
        lemma_pow_mono(m, (n - 1) as nat);
    }
}

/// A tree in pre-order: `0` then both subtrees for an internal node, `1`
/// then the byte value for a leaf.
pub open spec fn tree_bytes(t: HTree) -> Seq<u8>
    decreases t,
{
    match t {
        HTree::Leaf(b) => seq![1u8, b],
        HTree::Node(l, r) => seq![0u8] + tree_bytes(*l) + tree_bytes(*r),
    }
}

/// Reads a tree at `pos` with at most `depth` levels below it: the tree and
/// the position after it, or `None` where the bytes are not such a tree.
pub open spec fn parse_at(s: Seq<u8>, pos: int, depth: nat) -> Option<(HTree, int)>
    decreases depth,
{
    if pos < 0 || pos >= s.len() {
        None
    } else if s[pos] == 1 {
        if pos + 1 < s.len() {
            Some((HTree::Leaf(s[pos + 1]), pos + 2))
        } else {
            None
        }
    } else if s[pos] == 0 && depth > 0 {
        match parse_at(s, pos + 1, (depth - 1) as nat) {
            Some((l, p1)) => match parse_at(s, p1, (depth - 1) as nat) {
                Some((r, p2)) => Some((HTree::Node(Box::new(l), Box::new(r)), p2)),
                None => None,
            },
            None => None,
        }
    } else {
        None
    }
}

/// Reading back a written tree gives the same tree, whatever surrounds it.
pub proof fn lemma_parse_tree_bytes(t: HTree, s: Seq<u8>, pos: int, depth: nat)
    requires
        0 <= pos,
        pos + tree_bytes(t).len() <= s.len(),
        s.subrange(pos, pos + tree_bytes(t).len()) == tree_bytes(t),
        height(t) <= depth,
    ensures
        parse_at(s, pos, depth) == Some((t, pos + tree_bytes(t).len())),
    decreases t,
{
    let w = tree_bytes(t);
    assert(s[pos] == w[0]);
    match t {
        HTree::Leaf(b) => {
            assert(s[pos + 1] == w[1]);
        },
        HTree::Node(l, r) => {
            let wl = tree_bytes(*l);
            let nl = wl.len() as int;
            let wr = tree_bytes(*r);
            assert(s.subrange(pos + 1, pos + 1 + wl.len()) =~= w.subrange(1, 1 + nl));
            assert(w.subrange(1, 1 + nl) =~= wl);
            lemma_parse_tree_bytes(*l, s, pos + 1, (depth - 1) as nat);
            assert(s.subrange(pos + 1 + wl.len(), pos + w.len()) =~= w.subrange(
                1 + nl,
                w.len() as int,
            ));
            assert(w.subrange(1 + nl, w.len() as int) =~= wr);
            lemma_parse_tree_bytes(*r, s, pos + 1 + wl.len(), (depth - 1) as nat);
        },
    }
}

/// Appends `t` in pre-order.
pub fn write_tree(t: &HTree, out: &mut Vec<u8>)
    ensures
        final(out)@ == old(out)@ + tree_bytes(*t),
    decreases t,
{
    match t {
        HTree::Leaf(b) => {
            out.push(1u8);
            out.push(*b);
            assert(final(out)@ =~= old(out)@ + tree_bytes(*t));
        },
        HTree::Node(l, r) => {
            out.push(0u8);
            write_tree(l, out);
            write_tree(r, out);
            assert(final(out)@ =~= old(out)@ + tree_bytes(*t));
        },
    }
}

/// Reads a tree at `pos` (see `parse_at`).
pub fn read_tree(a: &Vec<u8>, pos: usize, depth: usize) -> (r: Option<(HTree, usize)>)
    ensures
        match r {
            Some((t, p)) => parse_at(a@, pos as int, depth as nat) == Some((t, p as int)) && pos
                < p <= a.len(),
            None => parse_at(a@, pos as int, depth as nat) is None,
        },
    decreases depth,
{
    if pos >= a.len() {
        None
    } else if a[pos] == 1 {
        if pos + 1 < a.len() {
            Some((HTree::Leaf(a[pos + 1]), pos + 2))
        } else {
            None
        }
    } else if a[pos] == 0 && depth > 0 {
        match read_tree(a, pos + 1, depth - 1) {
            Some((l, p1)) => match read_tree(a, p1, depth - 1) {
                Some((r, p2)) => Some((HTree::Node(Box::new(l), Box::new(r)), p2)),
                None => None,
            },
            None => None,
        }
    } else {
        None
    }
}

} // verus!
