//! The decimal encoding used for persisted list lengths: canonical ASCII
//! digits, most significant first, no leading zeros.
use vstd::prelude::*;
use crate::bytes::{no_colon, COLON};

verus! {

/// Canonical decimal digits of `n` (`0` is the single digit `0`).
pub open spec fn dec_digits(n: nat) -> Seq<u8>
    decreases n,
{
    if n < 10 {
        seq![(n + 48) as u8]
    } else {
        dec_digits(n / 10).push(((n % 10) + 48) as u8)
    }
}

/// True when `s` is the canonical decimal form of some number: non-empty,
/// digits only, and no leading zero.
pub open spec fn is_dec_digits(s: Seq<u8>) -> bool {
    &&& s.len() > 0
    &&& forall|i: int| 0 <= i < s.len() ==> 48 <= #[trigger] s[i] <= 57
    &&& (s.len() > 1 ==> s[0] != 48)
}

/// The number a digit string denotes.
pub open spec fn dec_value(s: Seq<u8>) -> nat
    decreases s.len(),
{
    if s.len() == 0 {
        0
    } else {
        dec_value(s.drop_last()) * 10 + (if s.last() >= 48 {
            (s.last() - 48) as nat
        } else {
            0
        })
    }
}

pub proof fn lemma_dec_digits_wf(n: nat)
    ensures
        is_dec_digits(dec_digits(n)),
        no_colon(dec_digits(n)),
        n >= 1 ==> dec_digits(n)[0] != 48,
    decreases n,
{
    if n < 10 {
        let s = dec_digits(n);
        assert(s =~= seq![(n + 48) as u8]);
        assert(s[0] == (n + 48) as u8);
        assert(48 <= s[0] <= 57);
        assert(forall|i: int| 0 <= i < s.len() ==> 48 <= #[trigger] s[i] <= 57);
        assert(forall|i: int| 0 <= i < s.len() ==> #[trigger] s[i] != COLON);
    } else {
        lemma_dec_digits_wf(n / 10);
        let s = dec_digits(n);
        let t = dec_digits(n / 10);
        assert(s[0] == t[0]);
        assert forall|i: int| 0 <= i < s.len() implies 48 <= #[trigger] s[i] <= 57 by {
            if i < t.len() {
                assert(s[i] == t[i]);
            }
        }
        assert forall|i: int| 0 <= i < s.len() implies s[i] != COLON by {
            assert(48 <= s[i] <= 57);
        }
    }
}

pub proof fn lemma_dec_value_of_digits(n: nat)
    ensures
        dec_value(dec_digits(n)) == n,
    decreases n,
{
    if n < 10 {
        let s = dec_digits(n);
        assert(s =~= seq![(n + 48) as u8]);
        assert(s.drop_last() =~= Seq::<u8>::empty());
        assert(s.last() == (n + 48) as u8);
        assert(dec_value(s) == dec_value(Seq::<u8>::empty()) * 10 + (s.last() - 48));
    } else {
        lemma_dec_value_of_digits(n / 10);
        let s = dec_digits(n);
        let t = dec_digits(n / 10);
        assert(s.drop_last() =~= t);
        assert(dec_value(s) == dec_value(t) * 10 + (n % 10));
        assert(n / 10 * 10 + n % 10 == n) by (nonlinear_arith);
    }
}

proof fn lemma_dec_value_pos(s: Seq<u8>)
    requires
        s.len() > 0,
        forall|i: int| 0 <= i < s.len() ==> 48 <= #[trigger] s[i] <= 57,
        s[0] != 48,
    ensures
        dec_value(s) >= 1,
    decreases s.len(),
{
    if s.len() > 1 {
        let t = s.drop_last();
        lemma_dec_value_pos(t);
    }
}

/// Canonical digit strings are uniquely determined by their value.
pub proof fn lemma_dec_digits_of_value(s: Seq<u8>)
    requires
        is_dec_digits(s),
    ensures
        dec_digits(dec_value(s)) == s,
    decreases s.len(),
{
    if s.len() == 1 {
        assert(dec_value(s) == (s[0] - 48) as nat * 10 * 0 + (s[0] - 48)) by {
            assert(s.drop_last() =~= Seq::<u8>::empty());
        }
        assert(dec_value(s) < 10);
        assert(dec_digits(dec_value(s)) =~= s);
    } else {
        let t = s.drop_last();
        let d = (s.last() - 48) as nat;
        assert(forall|i: int| 0 <= i < t.len() ==> 48 <= #[trigger] t[i] <= 57);
        assert(is_dec_digits(t));
        lemma_dec_digits_of_value(t);
        lemma_dec_value_pos(t);
        let v = dec_value(s);
        assert(v == dec_value(t) * 10 + d);
        assert(dec_value(t) * 10 >= 10) by (nonlinear_arith)
            requires
                dec_value(t) >= 1,
        ;
        assert(v >= 10);
        assert(v / 10 == dec_value(t) && v % 10 == d) by (nonlinear_arith)
            requires
                v == dec_value(t) * 10 + d,
                0 <= d < 10,
        ;
        assert(dec_digits(v) == dec_digits(dec_value(t)).push((d + 48) as u8));
        assert(t.push(s.last()) =~= s);
    }
}

/// Builds the canonical decimal form of `n`.
pub fn usize_to_dec(n: usize) -> (v: Vec<u8>)
    ensures
        v@ == dec_digits(n as nat),
    decreases n,
{
    if n < 10 {
        let mut v: Vec<u8> = Vec::new();
        v.push((n as u8) + 48);
        proof {
            assert(v@ =~= dec_digits(n as nat));
        }
        v
    } else {
        let mut v = usize_to_dec(n / 10);
        v.push(((n % 10) as u8) + 48);
        v
    }
}

/// Parses a canonical decimal form; rejects anything else, and any value
/// that does not fit in `usize`.
pub fn dec_to_usize(v: &[u8]) -> (r: Option<usize>)
    ensures
        r matches Some(x) ==> is_dec_digits(v@) && dec_value(v@) == x as nat,
        is_dec_digits(v@) && dec_value(v@) <= usize::MAX ==> r is Some,
{
    if v.len() == 0 {
        return None;
    }
    if v.len() > 1 && v[0] == 48 {
        return None;
    }
    let mut acc: usize = 0;
    let mut i: usize = 0;
    while i < v.len()
        invariant
            i <= v.len(),
            v@.len() > 0,
            v@.len() > 1 ==> v@[0] != 48,
            forall|j: int| 0 <= j < i ==> 48 <= #[trigger] v@[j] <= 57,
            acc as nat == dec_value(v@.subrange(0, i as int)),
        decreases v.len() - i,
    {
        let b = v[i];
        if b < 48 || b > 57 {
            return None;
        }
        let d = (b - 48) as usize;
        if acc > (usize::MAX - d) / 10 {
            // The prefix already exceeds what fits; if the whole input is
            // made of digits, its value can only be larger still.
            proof {
                assert(acc * 10 + d > usize::MAX) by (nonlinear_arith)
                    requires
                        acc > (usize::MAX - d) / 10,
                        0 <= d < 10,
                        acc >= 0,
                ;
                assert(dec_value(v@.subrange(0, i as int + 1)) > usize::MAX) by {
                    assert(v@.subrange(0, i as int + 1).drop_last() =~= v@.subrange(
                        0,
                        i as int,
                    ));
                    assert(v@.subrange(0, i as int + 1).last() == v@[i as int]);
                }
                if is_dec_digits(v@) {
                    lemma_dec_value_prefix_mono(v@, i as int + 1, v@.len() as int);
                    assert(v@.subrange(0, v@.len() as int) =~= v@);
                }
            }
            return None;
        }
        proof {
            assert(acc * 10 + d <= usize::MAX) by (nonlinear_arith)
                requires
                    acc <= (usize::MAX - d) / 10,
                    0 <= d < 10,
                    acc >= 0,
            ;
            assert(v@.subrange(0, i + 1 as int).drop_last() =~= v@.subrange(0, i as int));
            assert(v@.subrange(0, i + 1 as int).last() == v@[i as int]);
        }
        acc = acc * 10 + d;
        i = i + 1;
    }
    proof {
        assert(v@.subrange(0, v@.len() as int) =~= v@);
    }
    Some(acc)
}

/// A longer digit prefix never denotes a smaller number.
proof fn lemma_dec_value_prefix_mono(s: Seq<u8>, i: int, j: int)
    requires
        0 <= i <= j <= s.len(),
        forall|k: int| 0 <= k < s.len() ==> 48 <= #[trigger] s[k] <= 57,
    ensures
        dec_value(s.subrange(0, i)) <= dec_value(s.subrange(0, j)),
    decreases j - i,
{
    if i < j {
        lemma_dec_value_prefix_mono(s, i, j - 1);
        let t = s.subrange(0, j);
        assert(t.drop_last() =~= s.subrange(0, j - 1));
        assert(dec_value(t) == dec_value(t.drop_last()) * 10 + (s[j - 1] - 48)) by {
            assert(t.last() == s[j - 1]);
        }
        assert(dec_value(t.drop_last()) * 10 >= dec_value(t.drop_last())) by (nonlinear_arith);
    }
}

} // verus!
