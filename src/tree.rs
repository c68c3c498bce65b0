use vstd::prelude::*;

verus! {

/// A prefix-code tree. A leaf carries one byte value; an internal node owns
/// exactly two subtrees. Bit `false` leads left, bit `true` leads right.
#[derive(Debug, PartialEq, Eq)]
pub enum HTree {
    Leaf(u8),
    Node(Box<HTree>, Box<HTree>),
}

/// Length of the longest path from the root to a leaf.
pub open spec fn height(t: HTree) -> nat
    decreases t,
{
    match t {
        HTree::Leaf(_) => 0,
        HTree::Node(l, r) => if height(*l) >= height(*r) {
            1 + height(*l)
        } else {
            1 + height(*r)
        },
    }
}

/// Number of leaves.
pub open spec fn leaf_count(t: HTree) -> nat
    decreases t,
{
    match t {
        HTree::Leaf(_) => 1,
        HTree::Node(l, r) => leaf_count(*l) + leaf_count(*r),
    }
}

/// The byte values carried by the leaves.
pub open spec fn symbols(t: HTree) -> Set<u8>
    decreases t,
{
    match t {
        HTree::Leaf(b) => set![b],
        HTree::Node(l, r) => symbols(*l).union(symbols(*r)),
    }
}

/// The code of `b`: the path to the first leaf carrying `b` in a left-first
/// depth-first walk, or `None` where no leaf carries it.
pub open spec fn code_of(t: HTree, b: u8) -> Option<Seq<bool>>
    decreases t,
{
    match t {
        HTree::Leaf(s) => if s == b {
            Some(Seq::<bool>::empty())
        } else {
            None
        },
        HTree::Node(l, r) => match code_of(*l, b) {
            Some(p) => Some(seq![false] + p),
            None => match code_of(*r, b) {
                Some(p) => Some(seq![true] + p),
                None => None,
            },
        },
    }
}

/// Walks `bits` from the root of `t` down to a leaf: the leaf's byte and the
/// number of bits consumed, or `None` where the bits run out first.
pub open spec fn decode_one(t: HTree, bits: Seq<bool>) -> Option<(u8, nat)>
    decreases t,
{
    match t {
        HTree::Leaf(b) => Some((b, 0nat)),
        HTree::Node(l, r) => if bits.len() == 0 {
            None
        } else {
            let sub = if bits[0] {
                *r
            } else {
                *l
            };
            match decode_one(sub, bits.skip(1)) {
                Some((b, n)) => Some((b, n + 1)),
                None => None,
            }
        },
    }
}

/// `p` is a prefix of `q` (equal sequences included).
pub open spec fn is_prefix(p: Seq<bool>, q: Seq<bool>) -> bool {
    p.len() <= q.len() && q.subrange(0, p.len() as int) == p
}

/// Following the code of `b` from the root reaches a leaf carrying `b`,
/// whatever bits come after it.
pub proof fn lemma_code_decodes(t: HTree, b: u8, rest: Seq<bool>)
    requires
        code_of(t, b) is Some,
    ensures
        decode_one(t, code_of(t, b)->0 + rest) == Some((b, code_of(t, b)->0.len())),
    decreases t,
{
    let c = code_of(t, b)->0;
    match t {
        HTree::Leaf(s) => {
            assert(c + rest =~= rest);
        },
        HTree::Node(l, r) => {
            if code_of(*l, b) is Some {
                let p = code_of(*l, b)->0;
                lemma_code_decodes(*l, b, rest);
                assert((c + rest).skip(1) =~= p + rest);
            } else {
                let p = code_of(*r, b)->0;
                lemma_code_decodes(*r, b, rest);
                assert((c + rest).skip(1) =~= p + rest);
            }
        },
    }
}

/// A byte has a code exactly where some leaf carries it.
pub proof fn lemma_code_iff_symbol(t: HTree, b: u8)
    ensures
        code_of(t, b) is Some <==> symbols(t).contains(b),
    decreases t,
{
    match t {
        HTree::Leaf(s) => {},
        HTree::Node(l, r) => {
            lemma_code_iff_symbol(*l, b);
            lemma_code_iff_symbol(*r, b);
        },
    }
}

/// The code table of a tree is a prefix code: two different bytes never have
/// codes one of which is a prefix of the other; and where the root is an
/// internal node, no code is empty.
pub proof fn lemma_prefix_free(t: HTree, b1: u8, b2: u8)
    requires
        code_of(t, b1) is Some,
        code_of(t, b2) is Some,
        b1 != b2,
    ensures
        !is_prefix(code_of(t, b1)->0, code_of(t, b2)->0),
        t is Node ==> code_of(t, b1)->0.len() > 0,
{
    let c1 = code_of(t, b1)->0;
    let c2 = code_of(t, b2)->0;
    if is_prefix(c1, c2) {
        let rest = c2.skip(c1.len() as int);
        assert(c1 + rest =~= c2);
        lemma_code_decodes(t, b1, rest);
        lemma_code_decodes(t, b2, Seq::<bool>::empty());
        assert(c2 + Seq::<bool>::empty() =~= c2);
    }
}

/// The code of `b`, computed by a depth-first walk of `t`.
pub fn code_for(t: &HTree, b: u8) -> (r: Option<Vec<bool>>)
    ensures
        match r {
            Some(v) => code_of(*t, b) == Some(v@),
            None => code_of(*t, b) is None,
        },
    decreases t,
{
    match t {
        HTree::Leaf(s) => if *s == b {
            Some(Vec::new())
        } else {
            None
        },
        HTree::Node(l, r) => match code_for(l, b) {
            Some(mut p) => {
                p.insert(0, false);
                Some(p)
            },
            None => match code_for(r, b) {
                Some(mut p) => {
                    p.insert(0, true);
                    Some(p)
                },
                None => None,
            },
        },
    }
}

/// The bits of an optional code.
pub open spec fn code_view(o: Option<Vec<bool>>) -> Option<Seq<bool>> {
    match o {
        Some(v) => Some(v@),
        None => None,
    }
}

/// `p` in front of an optional code.
pub open spec fn with_prefix(p: Seq<bool>, o: Option<Seq<bool>>) -> Option<Seq<bool>> {
    match o {
        Some(c) => Some(p + c),
        None => None,
    }
}

fn copy_bits(v: &Vec<bool>) -> (r: Vec<bool>)
    ensures
        r@ == v@,
{
    let mut r: Vec<bool> = Vec::new();
    let mut i: usize = 0;
    while i < v.len()
        invariant
            i <= v.len(),
            r@ == v@.subrange(0, i as int),
        decreases v.len() - i,
    {
        r.push(v[i]);
        i = i + 1;
        assert(r@ =~= v@.subrange(0, i as int));
    }
    assert(v@.subrange(0, i as int) =~= v@);
    r
}

/// Walks `t` depth-first, left before right, with `prefix` the path from the
/// root to `t`, and records the path to each leaf for its byte unless that
/// byte already has an entry.
fn fill_codes(t: &HTree, prefix: &mut Vec<bool>, table: &mut Vec<Option<Vec<bool>>>)
    requires
        old(table).len() == 256,
    ensures
        final(prefix)@ == old(prefix)@,
        final(table).len() == 256,
        forall|b: u8|
            #[trigger] code_view(final(table)@[b as int]) == match code_view(old(table)@[b as int]) {
                Some(c) => Some(c),
                None => with_prefix(old(prefix)@, code_of(*t, b)),
            },
    decreases t,
{
    match t {
        HTree::Leaf(s) => {
            if table[*s as usize].is_none() {
                let code = copy_bits(prefix);
                table.set(*s as usize, Some(code));
            }
            assert forall|b: u8|
                #[trigger] code_view(table@[b as int]) == match code_view(old(table)@[b as int]) {
                    Some(c) => Some(c),
                    None => with_prefix(old(prefix)@, code_of(*t, b)),
                } by {
                if b == *s {
                    assert(old(prefix)@ + Seq::<bool>::empty() =~= old(prefix)@);
                }
            }
        },
        HTree::Node(l, r) => {
            let ghost p0 = prefix@;
            let ghost t0 = table@;
            prefix.push(false);
            let ghost pl = prefix@;
            fill_codes(l, prefix, table);
            let ghost t1 = table@;
            prefix.pop();
            assert(prefix@ =~= p0);
            prefix.push(true);
            let ghost pr = prefix@;
            fill_codes(r, prefix, table);
            prefix.pop();
            assert(prefix@ =~= p0);
            assert forall|b: u8|
                #[trigger] code_view(table@[b as int]) == match code_view(t0[b as int]) {
                    Some(c) => Some(c),
                    None => with_prefix(p0, code_of(*t, b)),
                } by {
                assert(code_view(t1[b as int]) == match code_view(t0[b as int]) {
                    Some(c) => Some(c),
                    None => with_prefix(pl, code_of(**l, b)),
                });
                if let Some(c) = code_of(**l, b) {
                    assert(pl + c =~= p0 + (seq![false] + c));
                } else if let Some(c) = code_of(**r, b) {
                    assert(pr + c =~= p0 + (seq![true] + c));
                }
            }
        },
    }
}

/// The code table of `t`: entry `b` holds the code of byte `b`, found by one
/// depth-first walk of the tree.
pub fn code_table(t: &HTree) -> (r: Vec<Option<Vec<bool>>>)
    ensures
        r.len() == 256,
        forall|b: u8|
            match #[trigger] r@[b as int] {
                Some(v) => code_of(*t, b) == Some(v@),
                None => code_of(*t, b) is None,
            },
{
    let mut table: Vec<Option<Vec<bool>>> = Vec::new();
    let mut i: usize = 0;
    while i < 256
        invariant
            i <= 256,
            table.len() == i,
            forall|k: int| 0 <= k < i ==> (#[trigger] table@[k]) is None,
        decreases 256 - i,
    {
        table.push(None);
        i = i + 1;
    }
    let mut prefix: Vec<bool> = Vec::new();
    let ghost t0 = table@;
    fill_codes(t, &mut prefix, &mut table);
    assert forall|b: u8|
        match #[trigger] table@[b as int] {
            Some(v) => code_of(*t, b) == Some(v@),
            None => code_of(*t, b) is None,
        } by {
        assert(t0[b as int] is None);
        assert(code_view(table@[b as int]) == with_prefix(Seq::<bool>::empty(), code_of(*t, b)));
        if let Some(c) = code_of(*t, b) {
            assert(Seq::<bool>::empty() + c =~= c);
        }
    }
    table
}

} // verus!
