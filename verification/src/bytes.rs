//! Byte-string helpers shared by every layer: appending, comparison, and
//! the injectivity facts about `prefix ++ segment ++ suffix` key shapes on
//! which the container layers rely.
use vstd::prelude::*;

verus! {

/// The byte that separates the segments of every persisted key.
pub const COLON: u8 = 58;

/// True when `s` contains no separator byte, so that `s` can serve as one
/// segment of a persisted key without being mistaken for two.
pub open spec fn no_colon(s: Seq<u8>) -> bool {
    forall|i: int| 0 <= i < s.len() ==> s[i] != COLON
}

/// Appends all of `src` onto `dst`.
pub fn append_bytes(dst: &mut Vec<u8>, src: &[u8])
    ensures
        final(dst)@ == old(dst)@ + src@,
{
    let mut i: usize = 0;
    while i < src.len()
        invariant
            i <= src.len(),
            dst@ == old(dst)@ + src@.subrange(0, i as int),
        decreases src.len() - i,
    {
        dst.push(src[i]);
        proof {
            assert(old(dst)@ + src@.subrange(0, i as int) + seq![src@[i as int]]
                =~= old(dst)@ + src@.subrange(0, i + 1));
        }
        i = i + 1;
    }
    proof {
        assert(src@.subrange(0, src@.len() as int) =~= src@);
    }
}

/// Byte-for-byte equality of two byte strings.
pub fn bytes_eq(a: &[u8], b: &[u8]) -> (r: bool)
    ensures
        r <==> a@ == b@,
{
    if a.len() != b.len() {
        proof {
            assert(a@.len() != b@.len());
        }
        return false;
    }
    let mut i: usize = 0;
    while i < a.len()
        invariant
            i <= a.len(),
            a@.len() == b@.len(),
            forall|j: int| 0 <= j < i ==> a@[j] == b@[j],
        decreases a.len() - i,
    {
        if a[i] != b[i] {
            return false;
        }
        i = i + 1;
    }
    proof {
        assert(a@ =~= b@);
    }
    true
}

/// Splitting equal concatenations at equal lengths yields equal parts.
pub proof fn lemma_concat_split(a1: Seq<u8>, b1: Seq<u8>, a2: Seq<u8>, b2: Seq<u8>)
    requires
        a1 + b1 == a2 + b2,
        a1.len() == a2.len(),
    ensures
        a1 == a2,
        b1 == b2,
{
    assert((a1 + b1).len() == a1.len() + b1.len());
    assert((a2 + b2).len() == a2.len() + b2.len());
    assert forall|i: int| 0 <= i < a1.len() implies a1[i] == a2[i] by {
        assert((a1 + b1)[i] == a1[i]);
        assert((a2 + b2)[i] == a2[i]);
    }
    assert(a1 =~= a2);
    assert(b1.len() == b2.len());
    assert forall|i: int| 0 <= i < b1.len() implies b1[i] == b2[i] by {
        assert((a1 + b1)[a1.len() + i] == b1[i]);
        assert((a2 + b2)[a2.len() + i] == b2[i]);
    }
    assert(b1 =~= b2);
}

/// A colon-free segment followed by a suffix that is empty or starts with a
/// colon can be recovered unambiguously from the concatenation: the first
/// colon after the shared prefix ends the segment.
pub proof fn lemma_segment_injective(
    p: Seq<u8>,
    a1: Seq<u8>,
    s1: Seq<u8>,
    a2: Seq<u8>,
    s2: Seq<u8>,
)
    requires
        no_colon(a1),
        no_colon(a2),
        s1.len() == 0 || s1[0] == COLON,
        s2.len() == 0 || s2[0] == COLON,
        p + a1 + s1 == p + a2 + s2,
    ensures
        a1 == a2,
        s1 == s2,
{
    let w1 = p + a1 + s1;
    let w2 = p + a2 + s2;
    assert(w1.len() == w2.len());
    if a1.len() < a2.len() {
        // s1 must be non-empty, and its leading colon would land inside a2.
        assert(s1.len() > s2.len());
        let k = p.len() + a1.len();
        assert(w1[k as int] == s1[0]);
        assert(w2[k as int] == a2[a1.len() as int]);
        assert(false);
    } else if a2.len() < a1.len() {
        assert(s2.len() > s1.len());
        let k = p.len() + a2.len();
        assert(w2[k as int] == s2[0]);
        assert(w1[k as int] == a1[a2.len() as int]);
        assert(false);
    } else {
        lemma_concat_split(p + a1, s1, p + a2, s2);
        lemma_concat_split(p, a1, p, a2);
    }
}

} // verus!
