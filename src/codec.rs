use vstd::prelude::*;
use crate::bits::{BitWriter, bits_of, packs, read_bit};
use crate::builder::{
    build_tree, byte_counts, count_of, leaves_upto, lemma_leaves_upto, lemma_tree_of_counts,
    queue_symbols, sum_counts, tree_of_counts,
};
use crate::format::{
    MAX_DEPTH, le_bytes, le_value, parse_at, read_tree, read_u64, tree_bytes, write_tree,
    write_u64,
};
use crate::tree::{HTree, code_of, code_table, decode_one, height, lemma_code_iff_symbol};

verus! {

/// What can go wrong in the codec.
#[derive(PartialEq, Eq, Structural, Clone, Copy, Debug)]
pub enum CodecError {
    /// There is nothing to build a code from.
    EmptyInput,
    /// The header cannot be read, or describes no usable tree.
    MalformedArtifact,
    /// The bits end before the declared number of bytes is decoded.
    TruncatedBitstream,
    /// The encoder found no code for a byte of its own input.
    InvariantViolation,
}

/// Size of the fixed header: the input length and the bit count, eight bytes
/// each, least significant byte first.
pub const HEADER_LEN: usize = 16;

/// The 256 byte counts of `s`.
pub open spec fn counts_of(s: Seq<u8>) -> Seq<u64> {
    Seq::new(256, |b: int| count_of(s, b as u8) as u64)
}

/// The code tree of a non-empty input.
pub open spec fn tree_of(s: Seq<u8>) -> HTree {
    tree_of_counts(counts_of(s))
}

/// The codes of the bytes of `s`, one after the other.
pub open spec fn encode_bits(t: HTree, s: Seq<u8>) -> Seq<bool>
    decreases s.len(),
{
    if s.len() == 0 {
        Seq::empty()
    } else {
        encode_bits(t, s.drop_last()) + code_of(t, s.last())->0
    }
}

/// The artifact header of a non-empty input: its length, the number of
/// meaningful bits, and the tree in pre-order.
pub open spec fn header_of(s: Seq<u8>) -> Seq<u8> {
    le_bytes(s.len(), 8) + le_bytes(encode_bits(tree_of(s), s).len(), 8) + tree_bytes(tree_of(s))
}

/// `a` is the artifact of `s`: for an empty input the sixteen-byte header of
/// zeros; otherwise the header followed by the packed code bits.
pub open spec fn is_artifact_of(s: Seq<u8>, a: Seq<u8>) -> bool {
    if s.len() == 0 {
        a == le_bytes(0, 8) + le_bytes(0, 8)
    } else {
        let h = header_of(s);
        &&& h.len() <= a.len()
        &&& a.subrange(0, h.len() as int) == h
        &&& packs(a.skip(h.len() as int), encode_bits(tree_of(s), s))
    }
}

/// Decodes `count` bytes from `bits`, each by a walk from the root.
pub open spec fn decode_symbols(t: HTree, bits: Seq<bool>, count: nat) -> Option<Seq<u8>>
    decreases count,
{
    if count == 0 {
        Some(Seq::empty())
    } else {
        match decode_one(t, bits) {
            None => None,
            Some((b, n)) => match decode_symbols(t, bits.skip(n as int), (count - 1) as nat) {
                None => None,
                Some(rest) => Some(seq![b] + rest),
            },
        }
    }
}

/// What decoding `a` yields.
pub open spec fn decode_spec(a: Seq<u8>) -> Result<Seq<u8>, CodecError> {
    if a.len() < 16 {
        Err(CodecError::MalformedArtifact)
    } else {
        let len = le_value(a.subrange(0, 8));
        let nbits = le_value(a.subrange(8, 16));
        if a.len() == 16 {
            if len == 0 && nbits == 0 {
                Ok(Seq::empty())
            } else {
                Err(CodecError::MalformedArtifact)
            }
        } else {
            match parse_at(a, 16, MAX_DEPTH as nat) {
                None => Err(CodecError::MalformedArtifact),
                Some((t, p)) => if t is Leaf {
                    Err(CodecError::MalformedArtifact)
                } else if nbits > (a.len() - p) * 8 {
                    Err(CodecError::TruncatedBitstream)
                } else {
                    match decode_symbols(t, bits_of(a.skip(p), nbits), len) {
                        None => Err(CodecError::TruncatedBitstream),
                        Some(out) => Ok(out),
                    }
                },
            }
        }
    }
}

proof fn lemma_count_positive(s: Seq<u8>, i: int)
    requires
        0 <= i < s.len(),
    ensures
        count_of(s, s[i]) > 0,
    decreases s.len(),
{
    if i < s.len() - 1 {
        lemma_count_positive(s.drop_last(), i);
    }
}

proof fn lemma_count_bound(s: Seq<u8>, b: u8)
    ensures
        count_of(s, b) <= s.len(),
    decreases s.len(),
{
    if s.len() > 0 {
        lemma_count_bound(s.drop_last(), b);
    }
}

/// Sum over byte values below `n` of their counts in `s`, against the number
/// of elements of `s` below `n`.
proof fn lemma_sum_counts_below(s: Seq<u8>, f: Seq<u64>, n: nat)
    requires
        n <= 256,
        f == counts_of(s),
        s.len() <= u64::MAX,
    ensures
        sum_counts(f, n) == s.filter(|x: u8| x < n).len(),
    decreases n,
{
    if n > 0 {
        lemma_sum_counts_below(s, f, (n - 1) as nat);
        lemma_filter_split(s, n, (n - 1) as nat);
        lemma_count_bound(s, (n - 1) as u8);
        assert(f[n - 1] == count_of(s, (n - 1) as u8));
    } else {
        lemma_filter_none(s, n);
    }
}

proof fn lemma_filter_none(s: Seq<u8>, n: nat)
    requires
        n == 0,
    ensures
        s.filter(|x: u8| x < n).len() == 0,
    decreases s.len(),
{
    reveal(Seq::filter);
    if s.len() > 0 {
        lemma_filter_none(s.drop_last(), n);
    }
}

proof fn lemma_filter_split(s: Seq<u8>, n: nat, k: nat)
    requires
        k < 256,
        n == k + 1,
    ensures
        s.filter(|x: u8| x < n).len() == s.filter(|x: u8| x < k).len() + count_of(s, k as u8),
    decreases s.len(),
{
    reveal(Seq::filter);
    if s.len() > 0 {
        lemma_filter_split(s.drop_last(), n, k);
    }
}

proof fn lemma_total_counts(s: Seq<u8>)
    requires
        s.len() <= u64::MAX,
    ensures
        sum_counts(counts_of(s), 256) == s.len(),
{
    lemma_sum_counts_below(s, counts_of(s), 256);
    assert(s.filter(|x: u8| x < 256) =~= s) by {
        reveal(Seq::filter);
        lemma_filter_all(s);
    }
}

proof fn lemma_filter_all(s: Seq<u8>)
    ensures
        s.filter(|x: u8| x < 256) == s,
    decreases s.len(),
{
    reveal(Seq::filter);
    if s.len() > 0 {
        lemma_filter_all(s.drop_last());
        assert(s.drop_last().push(s.last()) =~= s);
    }
}

pub proof fn lemma_code_len(t: HTree, b: u8)
    requires
        code_of(t, b) is Some,
    ensures
        code_of(t, b)->0.len() <= height(t),
    decreases t,
{
    match t {
        HTree::Leaf(_) => {},
        HTree::Node(l, r) => {
            if code_of(*l, b) is Some {
                lemma_code_len(*l, b);
            } else {
                lemma_code_len(*r, b);
            }
        },
    }
}

/// Facts about the tree of a non-empty input.
pub proof fn lemma_tree_of(s: Seq<u8>)
    requires
        0 < s.len() <= u64::MAX,
    ensures
        tree_of(s) is Node,
        height(tree_of(s)) <= 255,
        forall|i: int| 0 <= i < s.len() ==> (code_of(tree_of(s), #[trigger] s[i]) is Some),
        leaves_upto(counts_of(s), 256).len() >= 1,
        sum_counts(counts_of(s), 256) == s.len(),
{
    let f = counts_of(s);
    lemma_leaves_upto(f, 256);
    lemma_count_positive(s, 0);
    lemma_count_bound(s, s[0]);
    assert(f[s[0] as int] > 0);
    assert(queue_symbols(leaves_upto(f, 256)).contains(s[0]));
    lemma_tree_of_counts(f);
    lemma_total_counts(s);
    assert forall|i: int| 0 <= i < s.len() implies (code_of(tree_of(s), #[trigger] s[i]) is Some) by {
        lemma_count_positive(s, i);
        lemma_count_bound(s, s[i]);
        assert(f[s[i] as int] > 0);
        lemma_code_iff_symbol(tree_of(s), s[i]);
    }
}

/// The code tree of `input`; an empty input has none.
pub fn build_code_tree(input: &[u8]) -> (r: Result<HTree, CodecError>)
    ensures
        match r {
            Ok(t) => input@.len() > 0 && t == tree_of(input@),
            Err(e) => input@.len() == 0 && e == CodecError::EmptyInput,
        },
{
    if input.len() == 0 {
        return Err(CodecError::EmptyInput);
    }
    proof {
        lemma_tree_of(input@);
    }
    let counts = byte_counts(input);
    proof {
        assert forall|k: int| 0 <= k < 256 implies counts@[k] == counts_of(input@)[k] by {
            let b = k as u8;
            assert(counts@[b as int] == count_of(input@, b));
            lemma_count_bound(input@, b);
        }
        assert(counts@ =~= counts_of(input@));
    }
    Ok(build_tree(&counts))
}

/// Encodes `input`: its length, the number of code bits, the code tree in
/// pre-order, and then the code of each byte in turn, packed most significant
/// bit first and zero-padded. An empty input gives a header of zeros alone.
pub fn encode(input: &[u8]) -> (r: Result<Vec<u8>, CodecError>)
    requires
        input@.len() <= usize::MAX / 256,
    ensures
        match r {
            Ok(a) => is_artifact_of(input@, a@),
            Err(_) => false,
        },
{
    let mut out: Vec<u8> = Vec::new();
    let t = match build_code_tree(input) {
        Ok(t) => t,
        Err(_) => {
            write_u64(&mut out, 0);
            write_u64(&mut out, 0);
            return Ok(out);
        },
    };
    proof {
        lemma_tree_of(input@);
    }
    let table = code_table(&t);
    let mut w = BitWriter::new();
    let mut i: usize = 0;
    while i < input.len()
        invariant
            i <= input.len(),
            input@.len() <= usize::MAX / 256,
            t == tree_of(input@),
            height(t) <= 255,
            forall|k: int| 0 <= k < input@.len() ==> (code_of(t, #[trigger] input@[k]) is Some),
            table.len() == 256,
            forall|b: u8|
                match #[trigger] table@[b as int] {
                    Some(v) => code_of(t, b) == Some(v@),
                    None => code_of(t, b) is None,
                },
            w.wf(),
            w@ == encode_bits(t, input@.subrange(0, i as int)),
            w@.len() <= 255 * i,
        decreases input.len() - i,
    {
        let x = input[i];
        assert(code_of(t, input@[i as int]) is Some);
        match &table[x as usize] {
            Some(code) => {
                proof {
                    lemma_code_len(t, x);
                }
                w.push_bits(code);
            },
            None => {
                return Err(CodecError::InvariantViolation);
            },
        }
        i = i + 1;
        proof {
            assert(input@.subrange(0, i as int).drop_last() =~= input@.subrange(0, i - 1));
        }
    }
    proof {
        assert(input@.subrange(0, i as int) =~= input@);
    }
    let nbits = w.bit_len();
    write_u64(&mut out, input.len() as u64);
    write_u64(&mut out, nbits as u64);
    write_tree(&t, &mut out);
    let ghost h = out@;
    let mut body = w.finish();
    let ghost packed = body@;
    out.append(&mut body);
    proof {
        assert(h =~= header_of(input@));
        assert(out@.subrange(0, h.len() as int) =~= h);
        assert(out@.skip(h.len() as int) =~= packed);
    }
    Ok(out)
}

/// `p` in front of a decoded result.
pub open spec fn prefixed(p: Seq<u8>, o: Option<Seq<u8>>) -> Option<Seq<u8>> {
    match o {
        Some(r) => Some(p + r),
        None => None,
    }
}

/// `o` with `k` more bits consumed.
pub open spec fn shifted(o: Option<(u8, nat)>, k: nat) -> Option<(u8, nat)> {
    match o {
        Some((b, n)) => Some((b, n + k)),
        None => None,
    }
}

/// Walks from the root `t` down to a leaf, reading the bits of the body that
/// starts at `off` from bit `pos` on: the leaf's byte and the next bit
/// position, or `None` where the bits run out first.
fn walk(t: &HTree, a: &Vec<u8>, off: usize, nbits: u64, pos: u64) -> (r: Option<(u8, u64)>)
    requires
        off <= a.len(),
        nbits <= (a.len() - off) * 8,
        pos <= nbits,
    ensures
        match r {
            Some((b, p)) => pos <= p <= nbits && decode_one(
                *t,
                bits_of(a@.skip(off as int), nbits as nat).skip(pos as int),
            ) == Some((b, (p - pos) as nat)),
            None => decode_one(*t, bits_of(a@.skip(off as int), nbits as nat).skip(pos as int)) is None,
        },
{
    let ghost bits = bits_of(a@.skip(off as int), nbits as nat);
    let mut cur: &HTree = t;
    let mut p: u64 = pos;
    assert(shifted(decode_one(*t, bits.skip(pos as int)), 0) == decode_one(*t, bits.skip(pos as int)));
    loop
        invariant
            pos <= p <= nbits,
            off <= a.len(),
            nbits <= (a.len() - off) * 8,
            bits == bits_of(a@.skip(off as int), nbits as nat),
            decode_one(*t, bits.skip(pos as int)) == shifted(
                decode_one(*cur, bits.skip(p as int)),
                (p - pos) as nat,
            ),
        decreases height(*cur),
    {
        match cur {
            HTree::Leaf(b) => {
                return Some((*b, p));
            },
            HTree::Node(l, r) => {
                let bit = match read_bit(a, off, nbits, p) {
                    None => {
                        assert(bits.skip(p as int).len() == 0);
                        return None;
                    },
                    Some(bit) => bit,
                };
                proof {
                    assert(bits.skip(p as int).skip(1) =~= bits.skip(p + 1));
                }
                cur = if bit {
                    &**r
                } else {
                    &**l
                };
                p = p + 1;
            },
        }
    }
}

/// Decodes an artifact made by `encode` (see `decode_spec`).
pub fn decode(a: &Vec<u8>) -> (r: Result<Vec<u8>, CodecError>)
    ensures
        match r {
            Ok(v) => decode_spec(a@) == Ok::<Seq<u8>, CodecError>(v@),
            Err(e) => decode_spec(a@) == Err::<Seq<u8>, CodecError>(e),
        },
{
    if a.len() < HEADER_LEN {
        return Err(CodecError::MalformedArtifact);
    }
    let len = read_u64(a, 0);
    let nbits = read_u64(a, 8);
    if a.len() == HEADER_LEN {
        if len == 0 && nbits == 0 {
            return Ok(Vec::new());
        } else {
            return Err(CodecError::MalformedArtifact);
        }
    }
    let (t, p) = match read_tree(a, HEADER_LEN, MAX_DEPTH) {
        None => {
            return Err(CodecError::MalformedArtifact);
        },
        Some(x) => x,
    };
    if let HTree::Leaf(_) = t {
        return Err(CodecError::MalformedArtifact);
    }
    let avail = (a.len() - p) as u64;
    if nbits / 8 > avail || (nbits / 8 == avail && nbits % 8 != 0) {
        return Err(CodecError::TruncatedBitstream);
    }
    assert(nbits <= (a.len() - p) * 8) by (nonlinear_arith)
        requires
            !(nbits / 8 > avail || (nbits / 8 == avail && nbits % 8 != 0)),
            avail == a.len() - p,
    ;
    let ghost bits = bits_of(a@.skip(p as int), nbits as nat);
    let mut out: Vec<u8> = Vec::new();
    let mut pos: u64 = 0;
    let mut i: u64 = 0;
    proof {
        assert(bits.skip(0) =~= bits);
        let x = decode_symbols(t, bits, len as nat);
        if x is Some {
            assert(Seq::<u8>::empty() + x->0 =~= x->0);
        }
    }
    while i < len
        invariant
            i <= len,
            pos <= nbits,
            p <= a.len(),
            nbits <= (a.len() - p) * 8,
            bits == bits_of(a@.skip(p as int), nbits as nat),
            a.len() > 16,
            parse_at(a@, 16, MAX_DEPTH as nat) == Some((t, p as int)),
            t is Node,
            le_value(a@.subrange(0, 8)) == len,
            le_value(a@.subrange(8, 16)) == nbits,
            decode_symbols(t, bits, len as nat) == prefixed(
                out@,
                decode_symbols(t, bits.skip(pos as int), (len - i) as nat),
            ),
        decreases len - i,
    {
        match walk(&t, a, p, nbits, pos) {
            None => {
                assert(decode_symbols(t, bits.skip(pos as int), (len - i) as nat) is None);
                assert(decode_symbols(t, bits, len as nat) is None);
                return Err(CodecError::TruncatedBitstream);
            },
            Some((b, np)) => {
                let ghost prev = out@;
                proof {
                    assert(bits.skip(pos as int).skip(np - pos) =~= bits.skip(np as int));
                    let x = decode_symbols(t, bits.skip(np as int), (len - i - 1) as nat);
                    if x is Some {
                        assert(prev + (seq![b] + x->0) =~= prev.push(b) + x->0);
                    }
                }
                out.push(b);
                pos = np;
            },
        }
        i = i + 1;
    }
    proof {
        assert(out@ + Seq::<u8>::empty() =~= out@);
    }
    Ok(out)
}

} // verus!
