use vstd::prelude::*;

use vstd::bytes::{
    lemma_auto_spec_u32_to_from_le_bytes, spec_u32_from_le_bytes, spec_u32_to_le_bytes, u32_from_le_bytes,
    u32_to_le_bytes,
};

verus! {

/// Words laid out one after another, each in four little-endian bytes.
pub open spec fn le_words(ws: Seq<u32>) -> Seq<u8>
    decreases ws.len(),
{
    if ws.len() == 0 {
        Seq::empty()
    } else {
        le_words(ws.drop_last()) + spec_u32_to_le_bytes(ws.last())
    }
}

/// The little-endian word that starts at byte `4 * k`.
pub open spec fn word_at(bs: Seq<u8>, k: int) -> u32 {
    spec_u32_from_le_bytes(bs.subrange(4 * k, 4 * k + 4))
}

/// The words of a byte string whose length is a multiple of four.
pub open spec fn words_of_bytes(bs: Seq<u8>) -> Seq<u32> {
    Seq::new(bs.len() / 4, |k: int| word_at(bs, k))
}

/// Each word of `ws` sits at its place in `le_words(ws)`.
pub proof fn lemma_le_words(ws: Seq<u32>)
    ensures
        le_words(ws).len() == 4 * ws.len(),
        forall|k: int| 0 <= k < ws.len() ==> #[trigger] le_words(ws).subrange(4 * k, 4 * k + 4) == spec_u32_to_le_bytes(ws[k]),
        forall|k: int| 0 <= k < ws.len() ==> #[trigger] word_at(le_words(ws), k) == ws[k],
    decreases ws.len(),
{
    lemma_auto_spec_u32_to_from_le_bytes();
    if ws.len() > 0 {
        let init = ws.drop_last();
        lemma_le_words(init);
        let b = le_words(ws);
        let a = le_words(init);
        assert(b == a + spec_u32_to_le_bytes(ws.last()));
        assert forall|k: int| 0 <= k < ws.len() implies #[trigger] b.subrange(4 * k, 4 * k + 4) == spec_u32_to_le_bytes(ws[k]) by {
            if k < ws.len() - 1 {
                assert(b.subrange(4 * k, 4 * k + 4) =~= a.subrange(4 * k, 4 * k + 4));
                assert(init[k] == ws[k]);
            } else {
                assert(b.subrange(4 * k, 4 * k + 4) =~= spec_u32_to_le_bytes(ws.last()));
            }
        }
        assert forall|k: int| 0 <= k < ws.len() implies #[trigger] word_at(b, k) == ws[k] by {
            assert(b.subrange(4 * k, 4 * k + 4) == spec_u32_to_le_bytes(ws[k]));
        }
    }
}

/// Two word sequences with the same bytes are the same.
pub proof fn lemma_le_words_injective(a: Seq<u32>, b: Seq<u32>)
    requires
        le_words(a) == le_words(b),
    ensures
        a == b,
{
    lemma_le_words(a);
    lemma_le_words(b);
    assert forall|k: int| 0 <= k < a.len() implies a[k] == b[k] by {
        assert(word_at(le_words(a), k) == a[k]);
        assert(word_at(le_words(b), k) == b[k]);
    }
    assert(a =~= b);
}

/// The bytes of `ws`, four little-endian bytes per word.
pub fn encode_words(ws: &Vec<u32>) -> (r: Vec<u8>)
    ensures
        r@ == le_words(ws@),
{
    let mut r: Vec<u8> = Vec::new();
    let mut k: usize = 0;
    while k < ws.len()
        invariant
            k <= ws@.len(),
            r@ == le_words(ws@.take(k as int)),
        decreases ws@.len() - k,
    {
        let bytes = u32_to_le_bytes(ws[k]);
        let mut j: usize = 0;
        let ghost start = r@;
        while j < bytes.len()
            invariant
                j <= bytes@.len(),
                r@ == start + bytes@.take(j as int),
            decreases bytes@.len() - j,
        {
            r.push(bytes[j]);
            assert(r@ =~= start + bytes@.take(j + 1));
            j = j + 1;
        }
        assert(ws@.take(k + 1).drop_last() =~= ws@.take(k as int));
        assert(bytes@.take(j as int) =~= bytes@);
        k = k + 1;
    }
    assert(ws@.take(k as int) =~= ws@);
    r
}

/// The words of `bs`, or `None` when its length is not a multiple of four.
pub fn decode_words(bs: &Vec<u8>) -> (r: Option<Vec<u32>>)
    ensures
        r is Some <==> bs@.len() % 4 == 0,
        r is Some ==> r->Some_0@ == words_of_bytes(bs@) && le_words(r->Some_0@) == bs@,
{
    if bs.len() % 4 != 0 {
        return None;
    }
    let total = bs.len();
    let n = total / 4;
    let mut ws: Vec<u32> = Vec::new();
    let mut k: usize = 0;
    while k < n
        invariant
            total == bs@.len(),
            n == bs@.len() / 4,
            bs@.len() % 4 == 0,
            k <= n,
            ws@ == words_of_bytes(bs@).take(k as int),
        decreases n - k,
    {
        assert(4 * k + 4 <= total) by (nonlinear_arith)
            requires
                k < n,
                n == total / 4,
                total % 4 == 0,
        ;
        let b = 4 * k;
        let chunk: Vec<u8> = vec![bs[b], bs[b + 1], bs[b + 2], bs[b + 3]];
        assert(chunk@ =~= bs@.subrange(4 * k, 4 * k + 4));
        let w = u32_from_le_bytes(chunk.as_slice());
        ws.push(w);
        assert(ws@ =~= words_of_bytes(bs@).take(k + 1));
        k = k + 1;
    }
    assert(ws@ =~= words_of_bytes(bs@));
    proof {
        lemma_le_words(ws@);
        lemma_auto_spec_u32_to_from_le_bytes();
        let e = le_words(ws@);
        assert forall|i: int| 0 <= i < bs@.len() implies e[i] == bs@[i] by {
            let k = i / 4;
            assert(0 <= k < ws@.len());
            assert(e.subrange(4 * k, 4 * k + 4) == spec_u32_to_le_bytes(ws@[k]));
            assert(ws@[k] == spec_u32_from_le_bytes(bs@.subrange(4 * k, 4 * k + 4)));
            assert(spec_u32_to_le_bytes(spec_u32_from_le_bytes(bs@.subrange(4 * k, 4 * k + 4))) == bs@.subrange(4 * k, 4 * k + 4));
            assert(e.subrange(4 * k, 4 * k + 4)[i - 4 * k] == e[i]);
            assert(bs@.subrange(4 * k, 4 * k + 4)[i - 4 * k] == bs@[i]);
        }
        assert(e =~= bs@);
    }
    Some(ws)
}

} // verus!
