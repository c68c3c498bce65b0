use vstd::prelude::*;
use crate::bits::{bits_of, lemma_packs_unique};
use crate::codec::{
    decode_spec, decode_symbols, encode_bits, header_of, is_artifact_of, lemma_code_len,
    lemma_tree_of, tree_of,
};
use crate::format::{
    MAX_DEPTH, le_bytes, lemma_le_round_trip, lemma_parse_tree_bytes, parse_at, pow256,
    tree_bytes,
};
use crate::tree::{HTree, code_of, height, lemma_code_decodes};

verus! {

proof fn lemma_encode_bits_append(t: HTree, s1: Seq<u8>, s2: Seq<u8>)
    ensures
        encode_bits(t, s1 + s2) == encode_bits(t, s1) + encode_bits(t, s2),
    decreases s2.len(),
{
    if s2.len() == 0 {
        assert(s1 + s2 =~= s1);
        assert(encode_bits(t, s1) + encode_bits(t, s2) =~= encode_bits(t, s1));
    } else {
        assert((s1 + s2).drop_last() =~= s1 + s2.drop_last());
        lemma_encode_bits_append(t, s1, s2.drop_last());
        assert(encode_bits(t, s1 + s2) =~= encode_bits(t, s1) + encode_bits(t, s2));
    }
}

proof fn lemma_encode_bits_len(t: HTree, s: Seq<u8>)
    requires
        forall|i: int| 0 <= i < s.len() ==> (code_of(t, #[trigger] s[i]) is Some),
    ensures
        encode_bits(t, s).len() <= height(t) * s.len(),
    decreases s.len(),
{
    if s.len() > 0 {
        lemma_encode_bits_len(t, s.drop_last());
        lemma_code_len(t, s.last());
        assert(height(t) * (s.len() - 1) + height(t) == height(t) * s.len()) by (nonlinear_arith);
    }
}

proof fn lemma_decode_encoded(t: HTree, s: Seq<u8>, rest: Seq<bool>)
    requires
        forall|i: int| 0 <= i < s.len() ==> (code_of(t, #[trigger] s[i]) is Some),
    ensures
        decode_symbols(t, encode_bits(t, s) + rest, s.len()) == Some(s),
    decreases s.len(),
{
    if s.len() == 0 {
        assert(s =~= Seq::<u8>::empty());
    } else {
        let head = seq![s[0]];
        let tail = s.skip(1);
        assert(s =~= head + tail);
        lemma_encode_bits_append(t, head, tail);
        assert(head.drop_last() =~= Seq::<u8>::empty());
        let c = code_of(t, s[0])->0;
        assert(encode_bits(t, head.drop_last()) == Seq::<bool>::empty());
        assert(encode_bits(t, head) =~= c);
        let after = encode_bits(t, tail) + rest;
        assert(encode_bits(t, s) + rest =~= c + after);
        lemma_code_decodes(t, s[0], after);
        assert((c + after).skip(c.len() as int) =~= after);
        assert forall|i: int| 0 <= i < tail.len() implies (code_of(t, #[trigger] tail[i]) is Some) by {
            assert(tail[i] == s[i + 1]);
        }
        lemma_decode_encoded(t, tail, rest);
        assert(seq![s[0]] + tail =~= s);
    }
}

/// Round trip: an artifact of `s` decodes to `s`.
pub proof fn lemma_round_trip(s: Seq<u8>, a: Seq<u8>)
    requires
        s.len() <= u64::MAX / 256,
        is_artifact_of(s, a),
    ensures
        decode_spec(a) == Ok::<Seq<u8>, crate::codec::CodecError>(s),
{
    reveal_with_fuel(pow256, 9);
    assert(pow256(8) == 0x1_0000_0000_0000_0000);
    if s.len() == 0 {
        lemma_le_round_trip(0, 8);
        assert(a.subrange(0, 8) =~= le_bytes(0, 8));
        assert(a.subrange(8, 16) =~= le_bytes(0, 8));
        assert(s =~= Seq::<u8>::empty());
    } else {
        lemma_tree_of(s);
        let t = tree_of(s);
        let bits = encode_bits(t, s);
        lemma_encode_bits_len(t, s);
        assert(bits.len() <= 255 * s.len()) by (nonlinear_arith)
            requires
                bits.len() <= height(t) * s.len(),
                height(t) <= 255,
        ;
        let h = header_of(s);
        let tb = tree_bytes(t);
        lemma_le_round_trip(s.len(), 8);
        lemma_le_round_trip(bits.len(), 8);
        assert(a.subrange(0, 8) =~= h.subrange(0, 8));
        assert(h.subrange(0, 8) =~= le_bytes(s.len(), 8));
        assert(a.subrange(8, 16) =~= h.subrange(8, 16));
        assert(h.subrange(8, 16) =~= le_bytes(bits.len(), 8));
        assert(h.len() == 16 + tb.len());
        assert(h.subrange(16, h.len() as int) =~= tb);
        assert forall|i: int| 0 <= i < h.len() implies a[i] == h[i] by {
            assert(a.subrange(0, h.len() as int)[i] == a[i]);
        }
        assert(a.subrange(16, 16 + tb.len() as int) =~= tb);
        lemma_parse_tree_bytes(t, a, 16, MAX_DEPTH as nat);
        assert(parse_at(a, 16, MAX_DEPTH as nat) == Some((t, h.len() as int)));
        let body = a.skip(h.len() as int);
        assert(bits_of(body, bits.len()) =~= bits);
        assert(bits + Seq::<bool>::empty() =~= bits);
        lemma_decode_encoded(t, s, Seq::<bool>::empty());
    }
}

/// Determinism: an input has one artifact only, so encoding it twice gives
/// identical bytes.
pub proof fn lemma_deterministic(s: Seq<u8>, a1: Seq<u8>, a2: Seq<u8>)
    requires
        is_artifact_of(s, a1),
        is_artifact_of(s, a2),
    ensures
        a1 == a2,
{
    if s.len() > 0 {
        let n = header_of(s).len() as int;
        lemma_packs_unique(a1.skip(n), a2.skip(n), encode_bits(tree_of(s), s));
        assert(a1 =~= a1.subrange(0, n) + a1.skip(n));
        assert(a2 =~= a2.subrange(0, n) + a2.skip(n));
    }
}

} // verus!
