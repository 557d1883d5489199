//! String-keyed maps as separate-chaining hash tables over the store.
//!
//! A table named `n` is backed by a bucket list named
//! `HashtableHashlist:{n}` of up to 10000 slots; an occupied bucket holds
//! the name of its collision chain, a tuple list of arity 2 named
//! `lzip:{hashlist}:{chain}` whose tuples are (key, value) pairs. The
//! chain is named by the first key that landed in the bucket.
//!
//! Bucket selection is pinned to the 64-bit FNV-1a hash of the key bytes,
//! taken modulo 10000, so persisted data stays portable across builds.
use vstd::prelude::*;
use crate::bytes::{append_bytes, bytes_eq, lemma_segment_injective, no_colon, COLON};
use crate::list::{
    list_elem,
    list_elem_key,
    list_exists,
    list_len_key,
    list_length,
    list_overwrite_post,
    list_set_len_post,
    lemma_elem_keys_injective,
    lemma_length_after_set_elem,
    lemma_length_after_set_len,
    lemma_list_keys_distinct,
    list_footprint,
    ListDb,
};
use crate::store::{agrees_except, agrees_trans, Store};
use crate::tuple_list::{tuple_backing_name, TupleList};

verus! {

/// The number of buckets every table has.
pub const BUCKET_COUNT: u64 = 10000;

/// The FNV-1a 64-bit offset basis.
pub const FNV_OFFSET: u64 = 0xcbf29ce484222325;

/// The FNV-1a 64-bit prime.
pub const FNV_PRIME: u64 = 0x100000001b3;

/// One step of FNV-1a: fold a byte into the running hash.
pub open spec fn fnv_step(h: u64, b: u8) -> u64 {
    (h ^ (b as u64)).wrapping_mul(FNV_PRIME)
}

/// The FNV-1a 64-bit hash of a byte string.
pub open spec fn fnv1a_of(s: Seq<u8>) -> u64
    decreases s.len(),
{
    if s.len() == 0 {
        FNV_OFFSET
    } else {
        fnv_step(fnv1a_of(s.drop_last()), s.last())
    }
}

/// The bucket a key selects.
pub open spec fn ht_bucket(key: Seq<u8>) -> nat {
    (fnv1a_of(key) % BUCKET_COUNT) as nat
}

/// Computes the FNV-1a 64-bit hash of `key`.
pub fn fnv1a(key: &[u8]) -> (h: u64)
    ensures
        h == fnv1a_of(key@),
{
    let mut h: u64 = FNV_OFFSET;
    let mut i: usize = 0;
    while i < key.len()
        invariant
            i <= key.len(),
            h == fnv1a_of(key@.subrange(0, i as int)),
        decreases key.len() - i,
    {
        h = (h ^ (key[i] as u64)).wrapping_mul(FNV_PRIME);
        proof {
            assert(key@.subrange(0, i as int + 1).drop_last() =~= key@.subrange(0, i as int));
            assert(key@.subrange(0, i as int + 1).last() == key@[i as int]);
        }
        i = i + 1;
    }
    proof {
        assert(key@.subrange(0, key@.len() as int) =~= key@);
    }
    h
}

/// The name of the bucket list of the table named `name`.
pub open spec fn ht_hashlist_name(name: Seq<u8>) -> Seq<u8> {
    seq![
        72u8,
        97u8,
        115u8,
        104u8,
        116u8,
        97u8,
        98u8,
        108u8,
        101u8,
        72u8,
        97u8,
        115u8,
        104u8,
        108u8,
        105u8,
        115u8,
        116u8,
        58u8,
    ] + name
}

/// The name of the collision chain tuple list for chain name `cn`.
pub open spec fn chain_tl_name(name: Seq<u8>, cn: Seq<u8>) -> Seq<u8> {
    seq![108u8, 122u8, 105u8, 112u8, 58u8] + ht_hashlist_name(name) + seq![COLON] + cn
}

/// The backing list name of that chain.
pub open spec fn chain_bn(name: Seq<u8>, cn: Seq<u8>) -> Seq<u8> {
    tuple_backing_name(chain_tl_name(name, cn))
}

/// First index at or after `i` (below `t`) whose key slot holds `key`.
pub open spec fn chain_scan(
    m: Map<Seq<u8>, Seq<u8>>,
    bn: Seq<u8>,
    key: Seq<u8>,
    i: nat,
    t: nat,
) -> Option<nat>
    decreases t - i,
{
    if i >= t {
        None
    } else if list_elem(m, bn, 2 * i) == Some(key) {
        Some(i)
    } else {
        chain_scan(m, bn, key, i + 1, t)
    }
}

/// The value the table named `n` associates with `key`: resolve the
/// bucket, then linearly scan the chain for the first matching key slot.
pub open spec fn ht_get(m: Map<Seq<u8>, Seq<u8>>, n: Seq<u8>, key: Seq<u8>) -> Option<Seq<u8>> {
    match list_elem(m, ht_hashlist_name(n), ht_bucket(key)) {
        Some(cn) => {
            let bn = chain_bn(n, cn);
            match list_length(m, bn) {
                Some(l) => match chain_scan(m, bn, key, 0, l / 2) {
                    Some(i) => list_elem(m, bn, 2 * i + 1),
                    None => None,
                },
                None => None,
            }
        },
        None => None,
    }
}

/// Well-formedness of the chain named `cn` sitting in bucket `b`: the
/// chain name is a colon-free key of this bucket, the backing length is a
/// readable even number, tuples are either whole or wholly tombstoned,
/// every present key is colon-free, belongs to this bucket, and appears
/// only once.
pub open spec fn chain_wf(m: Map<Seq<u8>, Seq<u8>>, n: Seq<u8>, b: nat, cn: Seq<u8>) -> bool {
    let bn = chain_bn(n, cn);
    &&& no_colon(cn)
    &&& ht_bucket(cn) == b
    &&& list_length(m, bn) is Some
    &&& list_length(m, bn).unwrap() % 2 == 0
    &&& forall|i: nat|
        i < list_length(m, bn).unwrap() / 2 ==> (#[trigger] list_elem(m, bn, 2 * i) is Some
            <==> list_elem(m, bn, 2 * i + 1) is Some)
    &&& forall|i: nat|
        i < list_length(m, bn).unwrap() / 2 ==> (#[trigger] list_elem(m, bn, 2 * i) matches Some(
            k,
        ) ==> ht_bucket(k) == b && no_colon(k))
    &&& forall|i: nat, j: nat|
        i < j < list_length(m, bn).unwrap() / 2 && #[trigger] list_elem(m, bn, 2 * i) is Some
            ==> list_elem(m, bn, 2 * i) != #[trigger] list_elem(m, bn, 2 * j)
}

/// Well-formedness of the whole table: the bucket list is readable, every
/// occupied bucket's chain is well formed, and no unoccupied bucket has a
/// chain list lying around.
pub open spec fn ht_wf(m: Map<Seq<u8>, Seq<u8>>, n: Seq<u8>) -> bool {
    &&& list_length(m, ht_hashlist_name(n)) is Some
    &&& forall|b: nat|
        (#[trigger] list_elem(m, ht_hashlist_name(n), b)) matches Some(cn) ==> chain_wf(
            m,
            n,
            b,
            cn,
        )
    &&& forall|cn: Seq<u8>|
        no_colon(cn) && list_elem(m, ht_hashlist_name(n), ht_bucket(cn)) is None ==> !list_exists(
            m,
            #[trigger] chain_bn(n, cn),
        )
}

/// Bucket-list keys and chain-backing keys never collide: the former name
/// a list starting with `H`, the latter one starting with `T`.
pub proof fn lemma_hashlist_chain_keys_distinct(n: Seq<u8>, cn: Seq<u8>, b: nat, i: nat)
    ensures
        list_len_key(ht_hashlist_name(n)) != list_len_key(chain_bn(n, cn)),
        list_len_key(ht_hashlist_name(n)) != list_elem_key(chain_bn(n, cn), i),
        list_elem_key(ht_hashlist_name(n), b) != list_len_key(chain_bn(n, cn)),
        list_elem_key(ht_hashlist_name(n), b) != list_elem_key(chain_bn(n, cn), i),
{
    let h = ht_hashlist_name(n);
    let c = chain_bn(n, cn);
    assert(list_len_key(h)[5] == 72u8);
    assert(list_len_key(c)[5] == 84u8);
    assert(list_elem_key(h, b)[5] == 72u8) by {
        assert(list_elem_key(h, b)[5] == list_len_key(h)[5]);
    }
    assert(list_elem_key(c, i)[5] == 84u8) by {
        assert(list_elem_key(c, i)[5] == list_len_key(c)[5]);
    }
}

/// Chain-backing keys of distinct colon-free chain names never collide.
pub proof fn lemma_chain_keys_injective(n: Seq<u8>, cn1: Seq<u8>, cn2: Seq<u8>, i: nat, j: nat)
    requires
        no_colon(cn1),
        no_colon(cn2),
        cn1 != cn2,
    ensures
        list_len_key(chain_bn(n, cn1)) != list_len_key(chain_bn(n, cn2)),
        list_len_key(chain_bn(n, cn1)) != list_elem_key(chain_bn(n, cn2), j),
        list_elem_key(chain_bn(n, cn1), i) != list_len_key(chain_bn(n, cn2)),
        list_elem_key(chain_bn(n, cn1), i) != list_elem_key(chain_bn(n, cn2), j),
{
    let p = seq![76u8, 105u8, 115u8, 116u8, 58u8] + seq![84u8, 117u8, 112u8, 108u8, 101u8, 58u8]
        + seq![108u8, 122u8, 105u8, 112u8, 58u8] + ht_hashlist_name(n) + seq![COLON];
    let e = Seq::<u8>::empty();
    assert(list_len_key(chain_bn(n, cn1)) =~= p + cn1 + e);
    assert(list_len_key(chain_bn(n, cn2)) =~= p + cn2 + e);
    let s1 = seq![COLON] + crate::digits::dec_digits(i);
    let s2 = seq![COLON] + crate::digits::dec_digits(j);
    assert(list_elem_key(chain_bn(n, cn1), i) =~= p + cn1 + s1);
    assert(list_elem_key(chain_bn(n, cn2), j) =~= p + cn2 + s2);
    crate::digits::lemma_dec_digits_wf(i);
    crate::digits::lemma_dec_digits_wf(j);
    if p + cn1 + e == p + cn2 + e {
        lemma_segment_injective(p, cn1, e, cn2, e);
    }
    if p + cn1 + e == p + cn2 + s2 {
        lemma_segment_injective(p, cn1, e, cn2, s2);
    }
    if p + cn1 + s1 == p + cn2 + e {
        lemma_segment_injective(p, cn1, s1, cn2, e);
    }
    if p + cn1 + s1 == p + cn2 + s2 {
        lemma_segment_injective(p, cn1, s1, cn2, s2);
    }
}

/// What a chain scan finds, characterized.
pub proof fn lemma_chain_scan_props(
    m: Map<Seq<u8>, Seq<u8>>,
    bn: Seq<u8>,
    key: Seq<u8>,
    i0: nat,
    t: nat,
)
    ensures
        chain_scan(m, bn, key, i0, t) matches Some(i) ==> i0 <= i < t && list_elem(m, bn, 2 * i)
            == Some(key) && forall|x: nat|
            i0 <= x < i ==> #[trigger] list_elem(m, bn, 2 * x) != Some(key),
        chain_scan(m, bn, key, i0, t) is None ==> forall|x: nat|
            i0 <= x < t ==> #[trigger] list_elem(m, bn, 2 * x) != Some(key),
    decreases t - i0,
{
    if i0 < t && list_elem(m, bn, 2 * i0) != Some(key) {
        lemma_chain_scan_props(m, bn, key, i0 + 1, t);
    }
}

/// A scan looks only at key slots: maps whose key slots agree, or differ
/// only at slots that match the key in neither, scan alike.
pub proof fn lemma_chain_scan_frame(
    m1: Map<Seq<u8>, Seq<u8>>,
    m2: Map<Seq<u8>, Seq<u8>>,
    bn: Seq<u8>,
    key: Seq<u8>,
    i0: nat,
    t: nat,
)
    requires
        forall|x: nat|
            x < t ==> (#[trigger] list_elem(m1, bn, 2 * x) == list_elem(m2, bn, 2 * x) || (
            list_elem(m1, bn, 2 * x) != Some(key) && list_elem(m2, bn, 2 * x) != Some(key))),
    ensures
        chain_scan(m1, bn, key, i0, t) == chain_scan(m2, bn, key, i0, t),
    decreases t - i0,
{
    if i0 < t {
        lemma_chain_scan_frame(m1, m2, bn, key, i0 + 1, t);
    }
}


/// Whether `k` is one of the store keys of the chain named `cn`.
pub open spec fn in_chain_footprint(n: Seq<u8>, cn: Seq<u8>, k: Seq<u8>) -> bool {
    k == list_len_key(chain_bn(n, cn)) || (exists|i: nat|
        k == #[trigger] list_elem_key(chain_bn(n, cn), i))
}

/// Every store key an operation addressed at `key` on the table named
/// `n` may touch: the bucket list's length entry and the key's bucket
/// slot, the keys of the chain recorded there (if any), and the keys of
/// the chain a fresh bucket would be given (named by `key`).
pub open spec fn ht_key_footprint(
    m: Map<Seq<u8>, Seq<u8>>,
    n: Seq<u8>,
    key: Seq<u8>,
) -> Set<Seq<u8>> {
    Set::new(
        |k: Seq<u8>|
            {
                ||| k == list_len_key(ht_hashlist_name(n))
                ||| k == list_elem_key(ht_hashlist_name(n), ht_bucket(key))
                ||| in_chain_footprint(n, key, k)
                ||| (list_elem(m, ht_hashlist_name(n), ht_bucket(key)) matches Some(cn)
                    && in_chain_footprint(n, cn, k))
            },
    )
}

/// A chain stays well formed when its reads are unchanged.
proof fn lemma_chain_wf_transfer(
    m1: Map<Seq<u8>, Seq<u8>>,
    m2: Map<Seq<u8>, Seq<u8>>,
    n: Seq<u8>,
    b: nat,
    cn: Seq<u8>,
)
    requires
        chain_wf(m1, n, b, cn),
        list_length(m1, chain_bn(n, cn)) == list_length(m2, chain_bn(n, cn)),
        forall|x: nat|
            #[trigger] list_elem(m1, chain_bn(n, cn), x) == list_elem(m2, chain_bn(n, cn), x),
    ensures
        chain_wf(m2, n, b, cn),
{
    let bn = chain_bn(n, cn);
    let t = list_length(m2, bn).unwrap() / 2;
    assert forall|i: nat|
        i < t implies (#[trigger] list_elem(m2, bn, 2 * i) is Some <==> list_elem(
        m2,
        bn,
        2 * i + 1,
    ) is Some) by {
        assert(list_elem(m1, bn, 2 * i) == list_elem(m2, bn, 2 * i));
        assert(list_elem(m1, bn, 2 * i + 1) == list_elem(m2, bn, 2 * i + 1));
    }
    assert forall|i: nat|
        i < t implies (#[trigger] list_elem(m2, bn, 2 * i) matches Some(k) ==> ht_bucket(k) == b
        && no_colon(k)) by {
        assert(list_elem(m1, bn, 2 * i) == list_elem(m2, bn, 2 * i));
    }
    assert forall|i: nat, j: nat|
        i < j < t && #[trigger] list_elem(m2, bn, 2 * i) is Some implies list_elem(m2, bn, 2 * i)
        != #[trigger] list_elem(m2, bn, 2 * j) by {
        assert(list_elem(m1, bn, 2 * i) == list_elem(m2, bn, 2 * i));
        assert(list_elem(m1, bn, 2 * j) == list_elem(m2, bn, 2 * j));
    }
}

/// A lookup reads only its bucket slot and that bucket's chain: if those
/// are unchanged between two stores, the lookup is too.
pub proof fn lemma_ht_get_transfer(
    m1: Map<Seq<u8>, Seq<u8>>,
    m2: Map<Seq<u8>, Seq<u8>>,
    n: Seq<u8>,
    k: Seq<u8>,
)
    requires
        list_elem(m1, ht_hashlist_name(n), ht_bucket(k)) == list_elem(
            m2,
            ht_hashlist_name(n),
            ht_bucket(k),
        ),
        list_elem(m1, ht_hashlist_name(n), ht_bucket(k)) matches Some(cn) ==> list_length(
            m1,
            chain_bn(n, cn),
        ) == list_length(m2, chain_bn(n, cn)) && forall|x: nat|
            #[trigger] list_elem(m1, chain_bn(n, cn), x) == list_elem(m2, chain_bn(n, cn), x),
    ensures
        ht_get(m1, n, k) == ht_get(m2, n, k),
{
    let o = list_elem(m1, ht_hashlist_name(n), ht_bucket(k));
    if o is Some {
        let bn = chain_bn(n, o.unwrap());
        if list_length(m1, bn) is Some {
            lemma_chain_scan_frame(m1, m2, bn, k, 0, list_length(m1, bn).unwrap() / 2);
        }
    }
}

/// Extending the scanned range by one slot keeps an existing find and
/// otherwise finds exactly a match in the new slot.
proof fn lemma_scan_grow(m: Map<Seq<u8>, Seq<u8>>, bn: Seq<u8>, key: Seq<u8>, i0: nat, t: nat)
    ensures
        chain_scan(m, bn, key, i0, t) matches Some(j) ==> chain_scan(m, bn, key, i0, t + 1)
            == Some(j),
        chain_scan(m, bn, key, i0, t) is None && i0 <= t ==> chain_scan(m, bn, key, i0, t + 1)
            == (if list_elem(m, bn, 2 * t) == Some(key) {
            Some(t)
        } else {
            None
        }),
    decreases t - i0,
{
    if i0 < t {
        lemma_scan_grow(m, bn, key, i0 + 1, t);
    } else if i0 == t {
        assert(chain_scan(m, bn, key, t + 1, t + 1) is None);
    }
}


/// Footprints of chains with distinct colon-free names share no key.
proof fn lemma_chain_fps_disjoint(n: Seq<u8>, cn1: Seq<u8>, cn2: Seq<u8>)
    requires
        no_colon(cn1),
        no_colon(cn2),
        cn1 != cn2,
    ensures
        forall|k: Seq<u8>| #[trigger] in_chain_footprint(n, cn1, k) ==> !in_chain_footprint(
            n,
            cn2,
            k,
        ),
{
    assert forall|k: Seq<u8>| #[trigger] in_chain_footprint(n, cn1, k) implies !in_chain_footprint(
        n,
        cn2,
        k,
    ) by {
        if k == list_len_key(chain_bn(n, cn1)) {
            lemma_chain_keys_injective(n, cn1, cn2, 0, 0);
            assert forall|j: nat| k != #[trigger] list_elem_key(chain_bn(n, cn2), j) by {
                lemma_chain_keys_injective(n, cn1, cn2, 0, j);
            }
        } else {
            let i = choose|i: nat| k == #[trigger] list_elem_key(chain_bn(n, cn1), i);
            lemma_chain_keys_injective(n, cn1, cn2, i, 0);
            assert forall|j: nat| k != #[trigger] list_elem_key(chain_bn(n, cn2), j) by {
                lemma_chain_keys_injective(n, cn1, cn2, i, j);
            }
        }
    }
}

/// No chain footprint contains a bucket-list key.
proof fn lemma_chain_fp_vs_hashlist(n: Seq<u8>, cn: Seq<u8>)
    ensures
        !in_chain_footprint(n, cn, list_len_key(ht_hashlist_name(n))),
        forall|b: nat|
            !in_chain_footprint(n, cn, #[trigger] list_elem_key(ht_hashlist_name(n), b)),
{
    assert forall|j: nat|
        list_len_key(ht_hashlist_name(n)) != #[trigger] list_elem_key(chain_bn(n, cn), j) by {
        lemma_hashlist_chain_keys_distinct(n, cn, 0, j);
    }
    lemma_hashlist_chain_keys_distinct(n, cn, 0, 0);
    assert forall|b: nat|
        !in_chain_footprint(n, cn, #[trigger] list_elem_key(ht_hashlist_name(n), b)) by {
        lemma_hashlist_chain_keys_distinct(n, cn, b, 0);
        assert forall|j: nat|
            list_elem_key(ht_hashlist_name(n), b) != #[trigger] list_elem_key(
                chain_bn(n, cn),
                j,
            ) by {
            lemma_hashlist_chain_keys_distinct(n, cn, b, j);
        }
    }
}

/// Everything an operation confined to one bucket and at most two chains
/// leaves alone: the other bucket slots and every other chain's reads.
#[verifier::rlimit(100)]
#[verifier::spinoff_prover]
proof fn lemma_ht_transfer_outside(
    m0: Map<Seq<u8>, Seq<u8>>,
    mf: Map<Seq<u8>, Seq<u8>>,
    n: Seq<u8>,
    b: nat,
    cn1: Seq<u8>,
    cn2: Seq<u8>,
    touched: Set<Seq<u8>>,
)
    requires
        agrees_except(m0, mf, touched),
        no_colon(cn1),
        no_colon(cn2),
        forall|k: Seq<u8>|
            #[trigger] touched.contains(k) ==> (k == list_len_key(ht_hashlist_name(n)) || k
                == list_elem_key(ht_hashlist_name(n), b) || in_chain_footprint(n, cn1, k)
                || in_chain_footprint(n, cn2, k)),
    ensures
        forall|b2: nat|
            b2 != b ==> #[trigger] list_elem(mf, ht_hashlist_name(n), b2) == list_elem(
                m0,
                ht_hashlist_name(n),
                b2,
            ),
        forall|cnx: Seq<u8>|
            no_colon(cnx) && cnx != cn1 && cnx != cn2 ==> list_length(
                m0,
                #[trigger] chain_bn(n, cnx),
            ) == list_length(mf, chain_bn(n, cnx)),
        forall|cnx: Seq<u8>, x: nat|
            no_colon(cnx) && cnx != cn1 && cnx != cn2 ==> #[trigger] list_elem(
                m0,
                chain_bn(n, cnx),
                x,
            ) == list_elem(mf, chain_bn(n, cnx), x),
        forall|cnx: Seq<u8>|
            no_colon(cnx) && cnx != cn1 && cnx != cn2 ==> (list_exists(
                m0,
                #[trigger] chain_bn(n, cnx),
            ) <==> list_exists(mf, chain_bn(n, cnx))),
{
    let hn = ht_hashlist_name(n);
    assert forall|b2: nat|
        b2 != b implies #[trigger] list_elem(mf, hn, b2) == list_elem(m0, hn, b2) by {
        let k = list_elem_key(hn, b2);
        lemma_list_keys_distinct(hn, b2);
        if k == list_elem_key(hn, b) {
            lemma_elem_keys_injective(hn, b2, b);
        }
        lemma_chain_fp_vs_hashlist(n, cn1);
        lemma_chain_fp_vs_hashlist(n, cn2);
        assert(!touched.contains(k));
    }
    assert forall|cnx: Seq<u8>|
        no_colon(cnx) && cnx != cn1 && cnx != cn2 implies !touched.contains(
        list_len_key(#[trigger] chain_bn(n, cnx)),
    ) by {
        let k = list_len_key(chain_bn(n, cnx));
        assert(in_chain_footprint(n, cnx, k));
        lemma_chain_fp_vs_hashlist(n, cnx);
        assert(!in_chain_footprint(n, cnx, list_len_key(hn)));
        assert(!in_chain_footprint(n, cnx, list_elem_key(hn, b)));
        assert(k != list_len_key(hn) && k != list_elem_key(hn, b));
        lemma_chain_fps_disjoint(n, cnx, cn1);
        assert(!in_chain_footprint(n, cn1, k));
        lemma_chain_fps_disjoint(n, cnx, cn2);
        assert(!in_chain_footprint(n, cn2, k));
    }
    assert forall|cnx: Seq<u8>|
        no_colon(cnx) && cnx != cn1 && cnx != cn2 implies list_length(
        m0,
        #[trigger] chain_bn(n, cnx),
    ) == list_length(mf, chain_bn(n, cnx)) && (list_exists(m0, chain_bn(n, cnx)) <==> list_exists(
        mf,
        chain_bn(n, cnx),
    )) by {
        assert(!touched.contains(list_len_key(chain_bn(n, cnx))));
    }
    assert forall|cnx: Seq<u8>, x: nat|
        no_colon(cnx) && cnx != cn1 && cnx != cn2 implies #[trigger] list_elem(
        m0,
        chain_bn(n, cnx),
        x,
    ) == list_elem(mf, chain_bn(n, cnx), x) by {
        let k = list_elem_key(chain_bn(n, cnx), x);
        assert(in_chain_footprint(n, cnx, k));
        lemma_chain_fp_vs_hashlist(n, cnx);
        lemma_chain_fps_disjoint(n, cnx, cn1);
        lemma_chain_fps_disjoint(n, cnx, cn2);
        assert(!touched.contains(k));
    }
}

/// A chained hash table; the handle carries the table name and its bucket
/// list, and every operation takes the store it acts on.
pub struct Hashtable {
    pub name: Vec<u8>,
    pub hashlist: ListDb,
}

impl Hashtable {
    /// The handle is consistent: the bucket list is the one derived from
    /// the table's own name.
    pub open spec fn wf(&self) -> bool {
        self.hashlist.name@ == ht_hashlist_name(self.name@)
    }

    /// Builds the bucket-list name of `name`.
    fn make_hashlist_name(name: &[u8]) -> (r: Vec<u8>)
        ensures
            r@ == ht_hashlist_name(name@),
    {
        let mut r: Vec<u8> = Vec::new();
        r.push(72);
        r.push(97);
        r.push(115);
        r.push(104);
        r.push(116);
        r.push(97);
        r.push(98);
        r.push(108);
        r.push(101);
        r.push(72);
        r.push(97);
        r.push(115);
        r.push(104);
        r.push(108);
        r.push(105);
        r.push(115);
        r.push(116);
        r.push(58);
        proof {
            assert(r@ =~= seq![
                72u8,
                97u8,
                115u8,
                104u8,
                116u8,
                97u8,
                98u8,
                108u8,
                101u8,
                72u8,
                97u8,
                115u8,
                104u8,
                108u8,
                105u8,
                115u8,
                116u8,
                58u8,
            ]);
        }
        append_bytes(&mut r, name);
        r
    }

    /// Builds the chain tuple-list name for chain name `cn`.
    fn make_lzip_name(&self, cn: &[u8]) -> (r: Vec<u8>)
        requires
            self.wf(),
        ensures
            r@ == chain_tl_name(self.name@, cn@),
    {
        let mut r: Vec<u8> = Vec::new();
        r.push(108);
        r.push(122);
        r.push(105);
        r.push(112);
        r.push(58);
        proof {
            assert(r@ =~= seq![108u8, 122u8, 105u8, 112u8, 58u8]);
        }
        append_bytes(&mut r, self.hashlist.name.as_slice());
        r.push(COLON);
        append_bytes(&mut r, cn);
        proof {
            assert(r@ =~= chain_tl_name(self.name@, cn@));
        }
        r
    }

    /// The bucket `key` selects.
    fn get_hash(&self, key: &Vec<u8>) -> (r: usize)
        ensures
            r as nat == ht_bucket(key@),
            r < 10000,
    {
        (fnv1a(key.as_slice()) % BUCKET_COUNT) as usize
    }

    /// Opens the table named `name`, creating its bucket list when none
    /// exists.
    pub fn new(store: &mut Store, name: Vec<u8>) -> (r: Result<Hashtable, String>)
        ensures
            r matches Ok(t) ==> t.wf() && t.name@ == name@,
            r is Ok && list_exists(old(store)@, ht_hashlist_name(name@)) ==> final(store)@
                == old(store)@,
            r is Ok && !list_exists(old(store)@, ht_hashlist_name(name@)) ==> final(store)@
                == list_set_len_post(old(store)@, ht_hashlist_name(name@), 0),
            r is Ok ==> list_exists(final(store)@, ht_hashlist_name(name@)),
            agrees_except(
                old(store)@,
                final(store)@,
                set![list_len_key(ht_hashlist_name(name@))],
            ),
    {
        let hn = Self::make_hashlist_name(name.as_slice());
        match ListDb::new(store, hn) {
            Ok(hashlist) => Ok(Hashtable { name, hashlist }),
            Err(e) => Err(e),
        }
    }

    /// Opens the table named `name` if its bucket list exists.
    pub fn open(store: &Store, name: Vec<u8>) -> (r: Option<Hashtable>)
        ensures
            r matches Some(t) ==> t.wf() && t.name@ == name@ && list_exists(
                store@,
                ht_hashlist_name(name@),
            ),
            !list_exists(store@, ht_hashlist_name(name@)) ==> r is None,
    {
        let hn = Self::make_hashlist_name(name.as_slice());
        match ListDb::open(store, hn) {
            Some(hashlist) => Some(Hashtable { name, hashlist }),
            None => None,
        }
    }

    /// Looks `key` up: resolves its bucket, opens the chain if one is
    /// recorded, and linearly scans it for the first matching key.
    pub fn get(&self, store: &Store, key: &Vec<u8>) -> (r: Option<Vec<u8>>)
        requires
            self.wf(),
        ensures
            ht_wf(store@, self.name@) ==> {
                &&& (r matches Some(v) ==> ht_get(store@, self.name@, key@) == Some(v@))
                &&& (ht_get(store@, self.name@, key@) is None ==> r is None)
            },
    {
        let ghost n = self.name@;
        let ghost m = store@;
        let hash_value = self.get_hash(key);
        match self.hashlist.access(store, hash_value) {
            Some(lzip_name) => {
                let tln = self.make_lzip_name(lzip_name.as_slice());
                let lzip = match TupleList::open(store, tln, 2) {
                    Some(t) => t,
                    None => {
                        return None;
                    },
                };
                let ghost bn = chain_bn(n, lzip_name@);
                let t = match lzip.length(store) {
                    Some(t) => t,
                    None => {
                        return None;
                    },
                };
                proof {
                    if ht_wf(m, n) {
                        assert(list_elem(m, ht_hashlist_name(n), hash_value as nat) == Some(
                            lzip_name@,
                        ));
                        assert(chain_wf(m, n, hash_value as nat, lzip_name@));
                    }
                }
                let mut i: usize = 0;
                while i < t
                    invariant
                        self.wf(),
                        n == self.name@,
                        m == store@,
                        lzip.wf(),
                        lzip.len == 2,
                        bn == chain_bn(n, lzip_name@),
                        lzip.bn() == bn,
                        i <= t,
                        tl_length_bound(m, bn, t),
                        hash_value as nat == ht_bucket(key@),
                        ht_wf(m, n) ==> list_elem(m, ht_hashlist_name(n), hash_value as nat)
                            == Some(lzip_name@),
                    decreases t - i,
                {
                    match lzip.access_tuple_elements(store, i, 0) {
                        Some(k) => {
                            if bytes_eq(k.as_slice(), key.as_slice()) {
                                let r = lzip.access_tuple_elements(store, i, 1);
                                proof {
                                    if ht_wf(m, n) {
                                        // Keys are unique within a well-formed
                                        // chain, so the match found here is the
                                        // first one the scan would find.
                                        let tt = list_length(m, bn).unwrap() / 2;
                                        assert(chain_wf(m, n, hash_value as nat, lzip_name@));
                                        assert(list_elem(m, bn, 2 * (i as nat)) == Some(key@));
                                        assert forall|x: nat|
                                            x < i as nat implies #[trigger] list_elem(
                                            m,
                                            bn,
                                            2 * x,
                                        ) != Some(key@) by {
                                            if list_elem(m, bn, 2 * x) is Some {
                                                assert(list_elem(m, bn, 2 * x) != list_elem(
                                                    m,
                                                    bn,
                                                    2 * (i as nat),
                                                ));
                                            }
                                        }
                                        lemma_scan_prefix_found(m, bn, key@, i as nat, tt);
                                    }
                                }
                                return r;
                            }
                        },
                        None => {},
                    }
                    i = i + 1;
                }
                None
            },
            None => None,
        }
    }

    /// Inserts or updates `key`. An occupied bucket's chain is scanned:
    /// a matching tuple is overwritten in place, otherwise a new
    /// (key, value) tuple is appended. An empty bucket is first given a
    /// chain named by the key's own bytes. On a well-formed table and a
    /// colon-free key, success leaves the table well formed, maps `key`
    /// to `value`, and leaves every other key's value as it stood.
    #[verifier::rlimit(80)]
    pub fn insert(&self, store: &mut Store, key: &Vec<u8>, value: &Vec<u8>) -> (r: Result<
        bool,
        String,
    >)
        requires
            self.wf(),
        ensures
            agrees_except(
                old(store)@,
                final(store)@,
                ht_key_footprint(old(store)@, self.name@, key@),
            ),
            r is Ok ==> (list_elem(
                old(store)@,
                ht_hashlist_name(self.name@),
                ht_bucket(key@),
            ) matches Some(cn) ==> list_elem(
                final(store)@,
                ht_hashlist_name(self.name@),
                ht_bucket(key@),
            ) == Some(cn)),
            ht_wf(old(store)@, self.name@) && no_colon(key@) ==> {
                &&& (r is Ok ==> ht_wf(final(store)@, self.name@))
                &&& (r is Ok ==> ht_get(final(store)@, self.name@, key@) == Some(value@))
                &&& (r is Ok ==> forall|k2: Seq<u8>|
                    k2 != key@ ==> #[trigger] ht_get(final(store)@, self.name@, k2) == ht_get(
                        old(store)@,
                        self.name@,
                        k2,
                    ))
            },
    {
        let ghost n = self.name@;
        let ghost m0 = store@;
        let ghost hn = ht_hashlist_name(n);
        let ghost fp = ht_key_footprint(m0, n, key@);
        let hash_value = self.get_hash(key);
        let ghost b = hash_value as nat;
        match self.hashlist.access_checked(store, hash_value) {
            Err(e) => Err(e),
            Ok(Some(lzip_name)) => {
                let ghost cn = lzip_name@;
                let ghost bn = chain_bn(n, cn);
                proof {
                    assert(list_elem(m0, hn, b) == Some(cn));
                    assert forall|k: Seq<u8>|
                        in_chain_footprint(n, cn, k) implies fp.contains(k) by {}
                }
                let tln = self.make_lzip_name(lzip_name.as_slice());
                let lzip = match TupleList::open(store, tln, 2) {
                    Some(t) => t,
                    None => {
                        return Err("Failed to open collision chain".to_owned());
                    },
                };
                let t = match lzip.length(store) {
                    Some(t) => t,
                    None => {
                        return Err("Failed to obtain List length".to_owned());
                    },
                };
                let fields: Vec<Vec<u8>> = vec![key.clone(), value.clone()];
                let ghost vs = fields.deep_view();
                proof {
                    assert(vs.len() == 2);
                    assert(vs[0] == key@);
                    assert(vs[1] == value@);
                }
                let mut i: usize = 0;
                while i < t
                    invariant
                        self.wf(),
                        lzip.wf(),
                        lzip.len == 2,
                        n == self.name@,
                        m0 == store@,
                        m0 == old(store)@,
                        hn == ht_hashlist_name(n),
                        b == ht_bucket(key@),
                        b == hash_value as nat,
                        cn == lzip_name@,
                        bn == chain_bn(n, cn),
                        lzip.bn() == bn,
                        fp == ht_key_footprint(m0, n, key@),
                        list_elem(m0, hn, b) == Some(cn),
                        i <= t,
                        tl_length_bound(m0, bn, t),
                        vs == fields.deep_view(),
                        vs.len() == 2,
                        vs[0] == key@,
                        vs[1] == value@,
                        fields@.len() == 2,
                        forall|x: nat| x < i ==> #[trigger] list_elem(m0, bn, 2 * x) != Some(key@),
                    decreases t - i,
                {
                    let hit = match lzip.access_elem_checked(store, i, 0) {
                        Ok(Some(k)) => bytes_eq(k.as_slice(), key.as_slice()),
                        Ok(None) => false,
                        Err(e) => {
                            return Err(e);
                        },
                    };
                    if hit {
                        proof {
                            assert(list_elem(m0, bn, 2 * (i as nat)) == Some(key@));
                            vstd::arithmetic::div_mod::lemma_fundamental_div_mod(
                                list_length(m0, bn).unwrap() as int,
                                2,
                            );
                            assert((i as nat) * 2 + 2 <= usize::MAX);
                        }
                        let r1 = lzip.overwrite(store, i, &fields);
                        match r1 {
                            Err(e) => {
                                proof {
                                    lemma_tl_fp_in_chain(n, cn, 2 * (i as nat), 2);
                                    insert_frame_to_fp(
                                        m0,
                                        store@,
                                        n,
                                        b,
                                        cn,
                                        key@,
                                        crate::tuple_list::tl_footprint(bn, 2 * (i as nat), 2),
                                    );
                                }
                                return Err(e);
                            },
                            Ok(_) => {},
                        }
                        proof {
                            let mf = store@;
                            assert(mf == crate::tuple_list::tl_overwrite_post(
                                m0,
                                bn,
                                2 * (i as nat),
                                vs,
                            ));
                            crate::tuple_list::lemma_tl_overwrite_post_props(
                                m0,
                                bn,
                                2 * (i as nat),
                                vs,
                            );
                            assert(list_elem(mf, bn, 2 * (i as nat)) == Some(key@));
                            assert(list_elem(mf, bn, 2 * (i as nat) + 1) == Some(value@));
                            lemma_tl_fp_in_chain(n, cn, 2 * (i as nat), 2);
                            insert_frame_to_fp(
                                m0,
                                mf,
                                n,
                                b,
                                cn,
                                key@,
                                crate::tuple_list::tl_footprint(bn, 2 * (i as nat), 2),
                            );
                            lemma_chain_fp_vs_hashlist(n, cn);
                            assert(!crate::tuple_list::tl_footprint(
                                bn,
                                2 * (i as nat),
                                2,
                            ).contains(list_elem_key(hn, b)));
                            assert(list_elem(mf, hn, b) == Some(cn));
                            if ht_wf(m0, n) && no_colon(key@) {
                                assert(vs =~= seq![key@, value@]);
                                lemma_insert_existing_ok(
                                    m0,
                                    mf,
                                    n,
                                    b,
                                    cn,
                                    key@,
                                    value@,
                                    i as nat,
                                    list_length(m0, bn).unwrap(),
                                );
                            }
                        }
                        return Ok(true);
                    }
                    i = i + 1;
                }
                // No matching key: append a fresh (key, value) tuple.
                let lu = match self.read_backing_len(store, &lzip) {
                    Some(x) => x,
                    None => {
                        return Err("Failed to obtain List length".to_owned());
                    },
                };
                if lu > usize::MAX - 2 {
                    return Err("Failed to obtain List length".to_owned());
                }
                let r1 = lzip.append(store, &fields);
                match r1 {
                    Err(e) => {
                        proof {
                            lemma_lfp_in_chain(n, cn);
                            insert_frame_to_fp(m0, store@, n, b, cn, key@, list_footprint(bn));
                        }
                        Err(e)
                    },
                    Ok(_) => {
                        proof {
                            let mf = store@;
                            lemma_lfp_in_chain(n, cn);
                            insert_frame_to_fp(m0, mf, n, b, cn, key@, list_footprint(bn));
                            lemma_chain_fp_vs_hashlist(n, cn);
                            assert(!list_footprint(bn).contains(list_elem_key(hn, b)));
                            assert(list_elem(mf, hn, b) == Some(cn));
                            if ht_wf(m0, n) && no_colon(key@) {
                                assert(vs =~= seq![key@, value@]);
                                lemma_insert_append_ok(m0, mf, n, b, cn, key@, value@, lu as nat);
                            }
                        }
                        Ok(true)
                    },
                }
            },
            Ok(None) => {
                let ghost sb = Set::new(
                    |k: Seq<u8>|
                        k == list_len_key(hn) || k == list_elem_key(hn, b) || in_chain_footprint(
                            n,
                            key@,
                            k,
                        ),
                );
                proof {
                    assert(list_elem(m0, hn, b) is None);
                }
                let hl_len = match self.hashlist.length(store) {
                    Some(l) => l,
                    None => {
                        return Err("Failed to obtain List length".to_owned());
                    },
                };
                if hash_value + 1 > hl_len {
                    let ghost m_pre = store@;
                    match self.hashlist.change_length(store, hash_value + 1) {
                        Ok(_) => {
                            proof {
                                assert(set![list_len_key(hn)].subset_of(sb));
                                agrees_trans(m0, m_pre, store@, set![list_len_key(hn)], sb);
                            }
                        },
                        Err(e) => {
                            proof {
                                assert(set![list_len_key(hn)].subset_of(sb));
                                agrees_trans(m0, m_pre, store@, set![list_len_key(hn)], sb);
                                insert_frame_to_fp_b(m0, store@, n, b, key@, sb);
                            }
                            return Err(e);
                        },
                    }
                }
                proof {
                    assert(agrees_except(m0, store@, sb));
                }
                let ghost m_a = store@;
                let r1 = self.hashlist.overwrite(store, hash_value, key);
                proof {
                    assert(set![list_elem_key(hn, b), list_len_key(hn)].subset_of(sb));
                    agrees_trans(
                        m0,
                        m_a,
                        store@,
                        set![list_elem_key(hn, b), list_len_key(hn)],
                        sb,
                    );
                }
                match r1 {
                    Ok(_) => {},
                    Err(e) => {
                        proof {
                            insert_frame_to_fp_b(m0, store@, n, b, key@, sb);
                        }
                        return Err(e);
                    },
                }
                let ghost m_b2 = store@;
                let tln = self.make_lzip_name(key.as_slice());
                let ghost cbk = chain_bn(n, key@);
                let r_new = TupleList::new(store, tln, 2);
                proof {
                    assert(in_chain_footprint(n, key@, list_len_key(cbk)));
                    assert(set![list_len_key(cbk)].subset_of(sb));
                    agrees_trans(m0, m_b2, store@, set![list_len_key(cbk)], sb);
                }
                let lzip = match r_new {
                    Ok(t) => t,
                    Err(e) => {
                        proof {
                            insert_frame_to_fp_b(m0, store@, n, b, key@, sb);
                        }
                        return Err(e);
                    },
                };
                let ghost m_c = store@;
                let lu = match self.read_backing_len(store, &lzip) {
                    Some(x) => x,
                    None => {
                        proof {
                            insert_frame_to_fp_b(m0, store@, n, b, key@, sb);
                        }
                        return Err("Failed to obtain List length".to_owned());
                    },
                };
                if lu > usize::MAX - 2 {
                    proof {
                        insert_frame_to_fp_b(m0, store@, n, b, key@, sb);
                    }
                    return Err("Failed to obtain List length".to_owned());
                }
                let fields: Vec<Vec<u8>> = vec![key.clone(), value.clone()];
                let ghost vs = fields.deep_view();
                proof {
                    assert(vs.len() == 2);
                    assert(vs[0] == key@);
                    assert(vs[1] == value@);
                }
                let r2 = lzip.append(store, &fields);
                proof {
                    lemma_lfp_in_chain(n, key@);
                    assert(list_footprint(cbk).subset_of(sb));
                    agrees_trans(m0, m_c, store@, list_footprint(cbk), sb);
                }
                match r2 {
                    Err(e) => {
                        proof {
                            insert_frame_to_fp_b(m0, store@, n, b, key@, sb);
                        }
                        Err(e)
                    },
                    Ok(_) => {
                        proof {
                            let mf = store@;
                            insert_frame_to_fp_b(m0, mf, n, b, key@, sb);
                            if ht_wf(m0, n) && no_colon(key@) {
                                assert(vs =~= seq![key@, value@]);
                                lemma_insert_fresh_ok(
                                    m0,
                                    m_a,
                                    m_b2,
                                    m_c,
                                    mf,
                                    n,
                                    b,
                                    key@,
                                    value@,
                                    lu as nat,
                                );
                            }
                        }
                        Ok(true)
                    },
                }
            },
        }
    }


    /// Deletes `key`: resolves its bucket and chain as a lookup does and
    /// deletes the matching (key, value) tuple; an empty bucket or an
    /// unmatched key reports that the key does not exist.
    #[verifier::rlimit(100)]
    #[verifier::spinoff_prover]
    pub fn delete(&self, store: &mut Store, key: &Vec<u8>) -> (r: Result<bool, String>)
        requires
            self.wf(),
        ensures
            agrees_except(
                old(store)@,
                final(store)@,
                ht_key_footprint(old(store)@, self.name@, key@),
            ),
            ht_wf(old(store)@, self.name@) && no_colon(key@) ==> {
                &&& (ht_get(old(store)@, self.name@, key@) is None ==> r is Err && final(store)@
                    == old(store)@)
                &&& (r is Ok ==> ht_wf(final(store)@, self.name@) && ht_get(
                    old(store)@,
                    self.name@,
                    key@,
                ) is Some && ht_get(final(store)@, self.name@, key@) is None)
                &&& (r is Ok ==> forall|k2: Seq<u8>|
                    k2 != key@ ==> #[trigger] ht_get(final(store)@, self.name@, k2) == ht_get(
                        old(store)@,
                        self.name@,
                        k2,
                    ))
            },
    {
        let ghost n = self.name@;
        let ghost m0 = store@;
        let ghost hn = ht_hashlist_name(n);
        let hash_value = self.get_hash(key);
        let ghost b = hash_value as nat;
        match self.hashlist.access_checked(store, hash_value) {
            Err(e) => Err(e),
            Ok(None) => Err("Key does not exist".to_owned()),
            Ok(Some(lzip_name)) => {
                let ghost cn = lzip_name@;
                let ghost bn = chain_bn(n, cn);
                let tln = self.make_lzip_name(lzip_name.as_slice());
                let lzip = match TupleList::open(store, tln, 2) {
                    Some(t) => t,
                    None => {
                        return Err("Key does not exist".to_owned());
                    },
                };
                let t = match lzip.length(store) {
                    Some(t) => t,
                    None => {
                        return Err("Failed to obtain List length".to_owned());
                    },
                };
                let mut i: usize = 0;
                let mut found: Option<usize> = None;
                while i < t && found.is_none()
                    invariant
                        self.wf(),
                        lzip.wf(),
                        lzip.len == 2,
                        m0 == store@,
                        bn == chain_bn(n, cn),
                        lzip.bn() == bn,
                        i <= t,
                        tl_length_bound(m0, bn, t),
                        found is None ==> forall|x: nat|
                            x < i ==> #[trigger] list_elem(m0, bn, 2 * x) != Some(key@),
                        found matches Some(fi) ==> fi < t && list_elem(m0, bn, 2 * (fi as nat))
                            == Some(key@),
                    decreases t - i,
                {
                    match lzip.access_elem_checked(store, i, 0) {
                        Ok(Some(k)) => {
                            if bytes_eq(k.as_slice(), key.as_slice()) {
                                found = Some(i);
                            }
                            i = i + 1;
                        },
                        Ok(None) => {
                            i = i + 1;
                        },
                        Err(e) => {
                            return Err(e);
                        },
                    };
                }
                match found {
                    None => {
                        proof {
                            if ht_wf(m0, n) && no_colon(key@) {
                                lemma_chain_scan_props(m0, bn, key@, 0, t as nat);
                                assert(ht_get(m0, n, key@) is None);
                            }
                        }
                        Err("Key does not exist".to_owned())
                    },
                    Some(fi) => {
                        proof {
                            vstd::arithmetic::div_mod::lemma_fundamental_div_mod(
                                list_length(m0, bn).unwrap() as int,
                                2,
                            );
                            assert((fi as nat) * 2 + 2 <= usize::MAX);
                        }
                        let r1 = lzip.delete(store, fi);
                        proof {
                            lemma_tl_fp_in_chain(n, cn, 2 * (fi as nat), 2);
                            insert_frame_to_fp(
                                m0,
                                store@,
                                n,
                                b,
                                cn,
                                key@,
                                crate::tuple_list::tl_footprint(bn, 2 * (fi as nat), 2),
                            );
                        }
                        match r1 {
                            Err(e) => {
                                proof {
                                    if ht_wf(m0, n) && no_colon(key@) {
                                        lemma_found_get_some(
                                            m0,
                                            n,
                                            b,
                                            cn,
                                            key@,
                                            fi as nat,
                                            list_length(m0, bn).unwrap(),
                                        );
                                    }
                                }
                                Err(e)
                            },
                            Ok(_) => {
                                proof {
                                    if ht_wf(m0, n) && no_colon(key@) {
                                        lemma_delete_hit(
                                            m0,
                                            store@,
                                            n,
                                            b,
                                            cn,
                                            key@,
                                            fi as nat,
                                            list_length(m0, bn).unwrap(),
                                        );
                                    }
                                }
                                Ok(true)
                            },
                        }
                    },
                }
            },
        }
    }


    /// Collects (key, value) pairs by scanning every bucket and every
    /// chain tuple, stopping once `number_of_entries` pairs have been
    /// collected when a limit is given. A full scan is expensive; it is
    /// meant for export and debugging, not hot paths. Every returned pair
    /// is a live entry of the table, and no key appears twice.
    pub fn to_tuple_list(&self, store: &Store, number_of_entries: Option<usize>) -> (r: Vec<
        (Vec<u8>, Vec<u8>),
    >)
        requires
            self.wf(),
        ensures
            ht_wf(store@, self.name@) ==> forall|idx: int|
                0 <= idx < r@.len() ==> ht_get(store@, self.name@, (#[trigger] r@[idx]).0@)
                    == Some(r@[idx].1@),
            ht_wf(store@, self.name@) ==> forall|i1: int, i2: int|
                0 <= i1 < i2 < r@.len() ==> (#[trigger] r@[i1]).0@ != (#[trigger] r@[i2]).0@,
            number_of_entries matches Some(t) ==> r@.len() <= t,
    {
        let ghost n = self.name@;
        let ghost m = store@;
        let mut ret: Vec<(Vec<u8>, Vec<u8>)> = Vec::new();
        let ghost mut prov: Seq<(nat, nat)> = Seq::empty();
        let hl_len = match self.hashlist.length(store) {
            Some(l) => l,
            None => {
                return ret;
            },
        };
        let mut count: usize = 0;
        let mut bi: usize = 0;
        while bi < hl_len
            invariant
                self.wf(),
                n == self.name@,
                m == store@,
                bi <= hl_len,
                prov.len() == ret@.len(),
                ht_wf(m, n) ==> forall|idx: int|
                    0 <= idx < ret@.len() ==> ht_get(m, n, (#[trigger] ret@[idx]).0@) == Some(
                        ret@[idx].1@,
                    ),
                ht_wf(m, n) ==> forall|idx: int|
                    0 <= idx < ret@.len() ==> scan_entry_at(
                        m,
                        n,
                        (#[trigger] prov[idx]).0,
                        prov[idx].1,
                        ret@[idx].0@,
                    ) && prov[idx].0 < bi as nat,
                ht_wf(m, n) ==> forall|i1: int, i2: int|
                    0 <= i1 < i2 < ret@.len() ==> (#[trigger] ret@[i1]).0@ != (
                    #[trigger] ret@[i2]).0@,
                number_of_entries matches Some(t) ==> ret@.len() == count && count <= t,
            decreases hl_len - bi,
        {
            match self.hashlist.access(store, bi) {
                Some(lzip_name) => {
                    let tln = self.make_lzip_name(lzip_name.as_slice());
                    let lzip_opt = TupleList::open(store, tln, 2);
                    match lzip_opt {
                        Some(lzip) => {
                            let ghost bn = chain_bn(n, lzip_name@);
                            let ct = match lzip.length(store) {
                                Some(x) => x,
                                None => 0,
                            };
                            let mut ci: usize = 0;
                            while ci < ct
                                invariant
                                    self.wf(),
                                    n == self.name@,
                                    m == store@,
                                    lzip.wf(),
                                    lzip.len == 2,
                                    bn == chain_bn(n, lzip_name@),
                                    lzip.bn() == bn,
                                    ci <= ct,
                                    ct > 0 ==> tl_length_bound(m, bn, ct),
                                    list_elem(m, ht_hashlist_name(n), bi as nat) == Some(
                                        lzip_name@,
                                    ),
                                    prov.len() == ret@.len(),
                                    ht_wf(m, n) ==> forall|idx: int|
                                        0 <= idx < ret@.len() ==> ht_get(
                                            m,
                                            n,
                                            (#[trigger] ret@[idx]).0@,
                                        ) == Some(ret@[idx].1@),
                                    ht_wf(m, n) ==> forall|idx: int|
                                        0 <= idx < ret@.len() ==> scan_entry_at(
                                            m,
                                            n,
                                            (#[trigger] prov[idx]).0,
                                            prov[idx].1,
                                            ret@[idx].0@,
                                        ) && (prov[idx].0 < bi as nat || (prov[idx].0
                                            == bi as nat && prov[idx].1 < ci as nat)),
                                    ht_wf(m, n) ==> forall|i1: int, i2: int|
                                        0 <= i1 < i2 < ret@.len() ==> (#[trigger] ret@[i1]).0@
                                            != (#[trigger] ret@[i2]).0@,
                                    number_of_entries matches Some(t) ==> ret@.len() == count
                                        && count <= t,
                                decreases ct - ci,
                            {
                                proof {
                                    vstd::arithmetic::div_mod::lemma_fundamental_div_mod(
                                        list_length(m, bn).unwrap() as int,
                                        2,
                                    );
                                    assert((ci as nat) * 2 + 1 <= usize::MAX);
                                }
                                let k = lzip.access_tuple_elements(store, ci, 0);
                                let v = lzip.access_tuple_elements(store, ci, 1);
                                match (k, v) {
                                    (Some(kb), Some(vb)) => {
                                        match number_of_entries {
                                            Some(t) => {
                                                if count >= t {
                                                    return ret;
                                                }
                                                count = count + 1;
                                            },
                                            None => {},
                                        }
                                        proof {
                                            if ht_wf(m, n) {
                                                lemma_entry_get(
                                                    m,
                                                    n,
                                                    bi as nat,
                                                    lzip_name@,
                                                    kb@,
                                                    ci as nat,
                                                    list_length(m, bn).unwrap(),
                                                );
                                                assert(scan_entry_at(
                                                    m,
                                                    n,
                                                    bi as nat,
                                                    ci as nat,
                                                    kb@,
                                                ));
                                                // The new key cannot repeat an
                                                // earlier one: its slot would
                                                // coincide with that entry's.
                                                assert forall|idx: int|
                                                    0 <= idx < ret@.len() implies (
                                                #[trigger] ret@[idx]).0@ != kb@ by {
                                                    if ret@[idx].0@ == kb@ {
                                                        lemma_scan_entries_distinct(
                                                            m,
                                                            n,
                                                            prov[idx].0,
                                                            prov[idx].1,
                                                            bi as nat,
                                                            ci as nat,
                                                            kb@,
                                                        );
                                                    }
                                                }
                                            }
                                            prov = prov.push((bi as nat, ci as nat));
                                        }
                                        ret.push((kb, vb));
                                    },
                                    _ => {},
                                }
                                ci = ci + 1;
                            }
                        },
                        None => {},
                    }
                },
                None => {},
            }
            bi = bi + 1;
        }
        ret
    }

    /// Reads the backing list length of a chain.
    fn read_backing_len(&self, store: &Store, lzip: &TupleList) -> (r: Option<usize>)
        requires
            lzip.wf(),
        ensures
            r matches Some(l) ==> list_length(store@, lzip.bn()) == Some(l as nat),
            list_length(store@, lzip.bn()) is None ==> r is None,
    {
        lzip.list.length(store)
    }
}



/// A tuple-operation footprint on a chain lies inside that chain's keys.
proof fn lemma_tl_fp_in_chain(n: Seq<u8>, cn: Seq<u8>, base: nat, cnt: nat)
    ensures
        forall|k: Seq<u8>|
            #[trigger] crate::tuple_list::tl_footprint(chain_bn(n, cn), base, cnt).contains(k)
                ==> in_chain_footprint(n, cn, k),
{
    assert forall|k: Seq<u8>|
        #[trigger] crate::tuple_list::tl_footprint(chain_bn(n, cn), base, cnt).contains(
        k,
    ) implies in_chain_footprint(n, cn, k) by {
        if k != list_len_key(chain_bn(n, cn)) {
            let j = choose|j: nat|
                j < cnt && k == #[trigger] list_elem_key(chain_bn(n, cn), (base + j) as nat);
            assert(k == list_elem_key(chain_bn(n, cn), (base + j) as nat));
        }
    }
}

/// A whole-list footprint on a chain lies inside that chain's keys.
proof fn lemma_lfp_in_chain(n: Seq<u8>, cn: Seq<u8>)
    ensures
        forall|k: Seq<u8>|
            #[trigger] list_footprint(chain_bn(n, cn)).contains(k) ==> in_chain_footprint(
                n,
                cn,
                k,
            ),
{
    assert forall|k: Seq<u8>|
        #[trigger] list_footprint(chain_bn(n, cn)).contains(k) implies in_chain_footprint(
        n,
        cn,
        k,
    ) by {
        if k != list_len_key(chain_bn(n, cn)) {
            let j = choose|j: nat| k == #[trigger] list_elem_key(chain_bn(n, cn), j);
            assert(k == list_elem_key(chain_bn(n, cn), j));
        }
    }
}

/// Converts an operation frame confined to bucket `b`'s recorded chain
/// into the public insert footprint.
proof fn insert_frame_to_fp(
    m0: Map<Seq<u8>, Seq<u8>>,
    mf: Map<Seq<u8>, Seq<u8>>,
    n: Seq<u8>,
    b: nat,
    cn: Seq<u8>,
    key: Seq<u8>,
    s: Set<Seq<u8>>,
)
    requires
        b == ht_bucket(key),
        list_elem(m0, ht_hashlist_name(n), b) == Some(cn),
        agrees_except(m0, mf, s),
        forall|k: Seq<u8>| #[trigger] s.contains(k) ==> in_chain_footprint(n, cn, k),
    ensures
        agrees_except(m0, mf, ht_key_footprint(m0, n, key)),
{
    let fp = ht_key_footprint(m0, n, key);
    assert forall|k: Seq<u8>| !fp.contains(k) implies !s.contains(k) by {}
}

/// Converts the fresh-bucket operation frame (bucket slot, bucket-list
/// length, and the chain named by the key) into the public footprint.
proof fn insert_frame_to_fp_b(
    m0: Map<Seq<u8>, Seq<u8>>,
    mf: Map<Seq<u8>, Seq<u8>>,
    n: Seq<u8>,
    b: nat,
    key: Seq<u8>,
    s: Set<Seq<u8>>,
)
    requires
        b == ht_bucket(key),
        agrees_except(m0, mf, s),
        forall|k: Seq<u8>|
            #[trigger] s.contains(k) ==> k == list_len_key(ht_hashlist_name(n)) || k
                == list_elem_key(ht_hashlist_name(n), b) || in_chain_footprint(n, key, k),
    ensures
        agrees_except(m0, mf, ht_key_footprint(m0, n, key)),
{
    let fp = ht_key_footprint(m0, n, key);
    assert forall|k: Seq<u8>| !fp.contains(k) implies !s.contains(k) by {}
}

/// Rebuilds table well-formedness after an operation confined to bucket
/// `b` and to the chains named `cn1` and `cn2` (both of bucket `b`).
proof fn lemma_ht_wf_rebuild(
    m0: Map<Seq<u8>, Seq<u8>>,
    mf: Map<Seq<u8>, Seq<u8>>,
    n: Seq<u8>,
    b: nat,
    cn1: Seq<u8>,
    cn2: Seq<u8>,
)
    requires
        ht_wf(m0, n),
        no_colon(cn1),
        no_colon(cn2),
        ht_bucket(cn1) == b,
        ht_bucket(cn2) == b,
        list_length(mf, ht_hashlist_name(n)) is Some,
        list_elem(mf, ht_hashlist_name(n), b) is Some,
        list_elem(mf, ht_hashlist_name(n), b) matches Some(cnb) ==> chain_wf(mf, n, b, cnb),
        forall|b2: nat|
            b2 != b ==> #[trigger] list_elem(mf, ht_hashlist_name(n), b2) == list_elem(
                m0,
                ht_hashlist_name(n),
                b2,
            ),
        forall|cnx: Seq<u8>|
            no_colon(cnx) && cnx != cn1 && cnx != cn2 ==> list_length(
                m0,
                #[trigger] chain_bn(n, cnx),
            ) == list_length(mf, chain_bn(n, cnx)),
        forall|cnx: Seq<u8>, x: nat|
            no_colon(cnx) && cnx != cn1 && cnx != cn2 ==> #[trigger] list_elem(
                m0,
                chain_bn(n, cnx),
                x,
            ) == list_elem(mf, chain_bn(n, cnx), x),
        forall|cnx: Seq<u8>|
            no_colon(cnx) && cnx != cn1 && cnx != cn2 ==> (list_exists(
                m0,
                #[trigger] chain_bn(n, cnx),
            ) <==> list_exists(mf, chain_bn(n, cnx))),
    ensures
        ht_wf(mf, n),
{
    let hn = ht_hashlist_name(n);
    assert forall|b2: nat|
        (#[trigger] list_elem(mf, hn, b2)) is Some implies chain_wf(
        mf,
        n,
        b2,
        list_elem(mf, hn, b2).unwrap(),
    ) by {
        if b2 != b {
            let cnx = list_elem(mf, hn, b2).unwrap();
            assert(list_elem(m0, hn, b2) == Some(cnx));
            assert(chain_wf(m0, n, b2, cnx));
            assert(cnx != cn1 && cnx != cn2);
            lemma_chain_wf_transfer(m0, mf, n, b2, cnx);
        }
    }
    assert forall|cnx: Seq<u8>|
        no_colon(cnx) && list_elem(mf, hn, ht_bucket(cnx)) is None implies !list_exists(
        mf,
        #[trigger] chain_bn(n, cnx),
    ) by {
        assert(ht_bucket(cnx) != b);
        assert(list_elem(m0, hn, ht_bucket(cnx)) is None);
        assert(!list_exists(m0, chain_bn(n, cnx)));
        assert(cnx != cn1 && cnx != cn2);
    }
}

/// Lookups of keys in other buckets are untouched.
proof fn lemma_ht_get_eq_other_buckets(
    m0: Map<Seq<u8>, Seq<u8>>,
    mf: Map<Seq<u8>, Seq<u8>>,
    n: Seq<u8>,
    b: nat,
    cn1: Seq<u8>,
    cn2: Seq<u8>,
)
    requires
        ht_wf(m0, n),
        no_colon(cn1),
        no_colon(cn2),
        ht_bucket(cn1) == b,
        ht_bucket(cn2) == b,
        forall|b2: nat|
            b2 != b ==> #[trigger] list_elem(mf, ht_hashlist_name(n), b2) == list_elem(
                m0,
                ht_hashlist_name(n),
                b2,
            ),
        forall|cnx: Seq<u8>|
            no_colon(cnx) && cnx != cn1 && cnx != cn2 ==> list_length(
                m0,
                #[trigger] chain_bn(n, cnx),
            ) == list_length(mf, chain_bn(n, cnx)),
        forall|cnx: Seq<u8>, x: nat|
            no_colon(cnx) && cnx != cn1 && cnx != cn2 ==> #[trigger] list_elem(
                m0,
                chain_bn(n, cnx),
                x,
            ) == list_elem(mf, chain_bn(n, cnx), x),
    ensures
        forall|k2: Seq<u8>|
            ht_bucket(k2) != b ==> #[trigger] ht_get(mf, n, k2) == ht_get(m0, n, k2),
{
    let hn = ht_hashlist_name(n);
    assert forall|k2: Seq<u8>|
        ht_bucket(k2) != b implies #[trigger] ht_get(mf, n, k2) == ht_get(m0, n, k2) by {
        let b2 = ht_bucket(k2);
        assert(list_elem(mf, hn, b2) == list_elem(m0, hn, b2));
        if list_elem(m0, hn, b2) is Some {
            let cnx = list_elem(m0, hn, b2).unwrap();
            assert(chain_wf(m0, n, b2, cnx));
            assert(cnx != cn1 && cnx != cn2);
            lemma_ht_get_transfer(m0, mf, n, k2);
        } else {
            lemma_ht_get_transfer(m0, mf, n, k2);
        }
    }
}


/// Success case: the key was found at tuple `i` of the recorded chain and
/// overwritten in place.
proof fn lemma_insert_existing_ok(
    m0: Map<Seq<u8>, Seq<u8>>,
    mf: Map<Seq<u8>, Seq<u8>>,
    n: Seq<u8>,
    b: nat,
    cn: Seq<u8>,
    key: Seq<u8>,
    value: Seq<u8>,
    i: nat,
    l: nat,
)
    requires
        ht_wf(m0, n),
        no_colon(key),
        b == ht_bucket(key),
        list_elem(m0, ht_hashlist_name(n), b) == Some(cn),
        list_length(m0, chain_bn(n, cn)) == Some(l),
        i < l / 2,
        list_elem(m0, chain_bn(n, cn), 2 * i) == Some(key),
        forall|x: nat| x < i ==> #[trigger] list_elem(m0, chain_bn(n, cn), 2 * x) != Some(key),
        mf == crate::tuple_list::tl_overwrite_post(m0, chain_bn(n, cn), 2 * i, seq![key, value]),
    ensures
        ht_wf(mf, n),
        ht_get(mf, n, key) == Some(value),
        forall|k2: Seq<u8>| k2 != key ==> #[trigger] ht_get(mf, n, k2) == ht_get(m0, n, k2),
{
    let hn = ht_hashlist_name(n);
    let bn = chain_bn(n, cn);
    let vs = seq![key, value];
    assert(chain_wf(m0, n, b, cn));
    crate::tuple_list::lemma_tl_overwrite_post_props(m0, bn, 2 * i, vs);
    let sprops = Set::new(
        |k: Seq<u8>|
            exists|j: nat| j < vs.len() && k == #[trigger] list_elem_key(bn, (2 * i + j) as nat),
    );
    assert(list_elem(mf, bn, 2 * i) == Some(key)) by {
        assert(list_elem(mf, bn, 2 * i + 0) == Some(vs[0]));
    }
    assert(list_elem(mf, bn, 2 * i + 1) == Some(vs[1]));
    // All key slots read alike in the two stores.
    assert forall|x: nat| #[trigger] list_elem(mf, bn, 2 * x) == list_elem(m0, bn, 2 * x) by {
        if x != i {
            assert(2 * x < 2 * i || 2 * x > 2 * i + 1);
        }
    }
    // Bucket slots are untouched.
    assert forall|b2: nat| #[trigger] list_elem(mf, hn, b2) == list_elem(m0, hn, b2) by {
        assert forall|j: nat|
            list_elem_key(hn, b2) != #[trigger] list_elem_key(bn, j) by {
            lemma_hashlist_chain_keys_distinct(n, cn, b2, j);
        }
        assert(!sprops.contains(list_elem_key(hn, b2)));
    }
    assert(list_length(mf, hn) is Some) by {
        assert forall|j: nat| list_len_key(hn) != #[trigger] list_elem_key(bn, j) by {
            lemma_hashlist_chain_keys_distinct(n, cn, 0, j);
        }
        assert(!sprops.contains(list_len_key(hn)));
        assert(list_length(mf, hn) == list_length(m0, hn));
    }
    lemma_ht_transfer_outside(m0, mf, n, b, cn, cn, sprops);
    assert(chain_wf(mf, n, b, cn)) by {
        let t = l / 2;
        assert forall|x: nat|
            x < t implies (#[trigger] list_elem(mf, bn, 2 * x) is Some <==> list_elem(
            mf,
            bn,
            2 * x + 1,
        ) is Some) by {
            if x != i {
                assert(2 * x + 1 != 2 * i && 2 * x + 1 != 2 * i + 1);
                assert(list_elem(mf, bn, 2 * x + 1) == list_elem(m0, bn, 2 * x + 1));
            }
        }
        assert forall|x: nat|
            x < t implies (#[trigger] list_elem(mf, bn, 2 * x) matches Some(k) ==> ht_bucket(k)
            == b && no_colon(k)) by {
            assert(list_elem(mf, bn, 2 * x) == list_elem(m0, bn, 2 * x));
        }
        assert forall|x: nat, y: nat|
            x < y < t && #[trigger] list_elem(mf, bn, 2 * x) is Some implies list_elem(
            mf,
            bn,
            2 * x,
        ) != #[trigger] list_elem(mf, bn, 2 * y) by {
            assert(list_elem(mf, bn, 2 * x) == list_elem(m0, bn, 2 * x));
            assert(list_elem(mf, bn, 2 * y) == list_elem(m0, bn, 2 * y));
        }
    }
    lemma_ht_wf_rebuild(m0, mf, n, b, cn, cn);
    // The lookup of `key` finds tuple `i`.
    assert(ht_get(mf, n, key) == Some(value)) by {
        assert forall|x: nat| x < i implies #[trigger] list_elem(mf, bn, 2 * x) != Some(key) by {
            assert(list_elem(mf, bn, 2 * x) == list_elem(m0, bn, 2 * x));
        }
        lemma_scan_prefix_found(mf, bn, key, i, l / 2);
    }
    // Other keys in this bucket scan identically and read unchanged
    // value slots; other buckets are untouched.
    lemma_ht_get_eq_other_buckets(m0, mf, n, b, cn, cn);
    assert forall|k2: Seq<u8>|
        k2 != key implies #[trigger] ht_get(mf, n, k2) == ht_get(m0, n, k2) by {
        if ht_bucket(k2) == b {
            lemma_chain_scan_frame(m0, mf, bn, k2, 0, l / 2);
            lemma_chain_scan_props(m0, bn, k2, 0, l / 2);
            let sc = chain_scan(m0, bn, k2, 0, l / 2);
            if sc is Some {
                let j = sc.unwrap();
                assert(list_elem(m0, bn, 2 * j) == Some(k2));
                assert(j != i);
                assert(2 * j + 1 != 2 * i && 2 * j + 1 != 2 * i + 1);
                assert(list_elem(mf, bn, 2 * j + 1) == list_elem(m0, bn, 2 * j + 1));
            }
        }
    }
}

/// Success case: the key was absent from the recorded chain and a new
/// (key, value) tuple was appended at the chain's tail.
proof fn lemma_insert_append_ok(
    m0: Map<Seq<u8>, Seq<u8>>,
    mf: Map<Seq<u8>, Seq<u8>>,
    n: Seq<u8>,
    b: nat,
    cn: Seq<u8>,
    key: Seq<u8>,
    value: Seq<u8>,
    lu: nat,
)
    requires
        ht_wf(m0, n),
        no_colon(key),
        b == ht_bucket(key),
        list_elem(m0, ht_hashlist_name(n), b) == Some(cn),
        list_length(m0, chain_bn(n, cn)) == Some(lu),
        lu + 2 <= usize::MAX,
        forall|x: nat| x < lu / 2 ==> #[trigger] list_elem(m0, chain_bn(n, cn), 2 * x) != Some(key),
        mf == crate::tuple_list::tl_overwrite_post(
            list_set_len_post(m0, chain_bn(n, cn), lu + 2),
            chain_bn(n, cn),
            (((lu + 2) / 2 - 1) * 2) as nat,
            seq![key, value],
        ),
    ensures
        ht_wf(mf, n),
        ht_get(mf, n, key) == Some(value),
        forall|k2: Seq<u8>| k2 != key ==> #[trigger] ht_get(mf, n, k2) == ht_get(m0, n, k2),
{
    let hn = ht_hashlist_name(n);
    let bn = chain_bn(n, cn);
    let vs = seq![key, value];
    assert(chain_wf(m0, n, b, cn));
    let t = lu / 2;
    assert(lu % 2 == 0);
    assert(((lu + 2) / 2 - 1) * 2 == lu && (lu + 2) / 2 == t + 1 && 2 * t == lu)
        by (nonlinear_arith)
        requires
            lu % 2 == 0,
            t == lu / 2,
    ;
    let mmid = list_set_len_post(m0, bn, lu + 2);
    lemma_length_after_set_len(m0, bn, lu + 2);
    crate::tuple_list::lemma_tl_overwrite_post_props(mmid, bn, lu, vs);
    assert(list_length(mf, bn) == Some((lu + 2) as nat));
    assert(list_elem(mf, bn, 2 * t) == Some(key)) by {
        assert(list_elem(mf, bn, lu + 0) == Some(vs[0]));
    }
    assert(list_elem(mf, bn, 2 * t + 1) == Some(value)) by {
        assert(list_elem(mf, bn, lu + 1) == Some(vs[1]));
    }
    assert forall|x: nat|
        x < lu implies #[trigger] list_elem(mf, bn, x) == list_elem(m0, bn, x) by {
        assert(list_elem(mmid, bn, x) == list_elem(m0, bn, x));
    }
    let stot = Set::new(
        |k: Seq<u8>|
            k == list_len_key(bn) || (exists|j: nat|
                j < 2 && k == #[trigger] list_elem_key(bn, (lu + j) as nat)),
    );
    assert(agrees_except(m0, mf, stot)) by {
        assert(agrees_except(m0, mmid, set![list_len_key(bn)]));
        assert forall|k: Seq<u8>| !stot.contains(k) implies (#[trigger] mmid.contains_key(k)
            <==> mf.contains_key(k)) && (mmid.contains_key(k) ==> mmid[k] == mf[k]) by {}
    }
    assert forall|b2: nat| #[trigger] list_elem(mf, hn, b2) == list_elem(m0, hn, b2) by {
        lemma_list_keys_distinct(bn, b2);
        assert forall|j: nat|
            list_elem_key(hn, b2) != #[trigger] list_elem_key(bn, j) by {
            lemma_hashlist_chain_keys_distinct(n, cn, b2, j);
        }
        lemma_hashlist_chain_keys_distinct(n, cn, b2, 0);
        assert(!stot.contains(list_elem_key(hn, b2)));
    }
    assert(list_length(mf, hn) is Some) by {
        assert forall|j: nat| list_len_key(hn) != #[trigger] list_elem_key(bn, j) by {
            lemma_hashlist_chain_keys_distinct(n, cn, 0, j);
        }
        lemma_hashlist_chain_keys_distinct(n, cn, 0, 0);
        assert(!stot.contains(list_len_key(hn)));
        assert(list_length(mf, hn) == list_length(m0, hn));
    }
    lemma_ht_transfer_outside(m0, mf, n, b, cn, cn, stot);
    assert(chain_wf(mf, n, b, cn)) by {
        assert forall|x: nat|
            x < t + 1 implies (#[trigger] list_elem(mf, bn, 2 * x) is Some <==> list_elem(
            mf,
            bn,
            2 * x + 1,
        ) is Some) by {
            if x < t {
                assert(2 * x < lu && 2 * x + 1 < lu);
            }
        }
        assert forall|x: nat|
            x < t + 1 implies (#[trigger] list_elem(mf, bn, 2 * x) matches Some(k) ==> ht_bucket(
            k,
        ) == b && no_colon(k)) by {
            if x < t {
                assert(2 * x < lu);
                assert(list_elem(mf, bn, 2 * x) == list_elem(m0, bn, 2 * x));
            }
        }
        assert forall|x: nat, y: nat|
            x < y < t + 1 && #[trigger] list_elem(mf, bn, 2 * x) is Some implies list_elem(
            mf,
            bn,
            2 * x,
        ) != #[trigger] list_elem(mf, bn, 2 * y) by {
            if y < t {
                assert(list_elem(mf, bn, 2 * x) == list_elem(m0, bn, 2 * x));
                assert(list_elem(mf, bn, 2 * y) == list_elem(m0, bn, 2 * y));
            } else {
                assert(y == t);
                assert(2 * x < lu);
                assert(list_elem(mf, bn, 2 * x) == list_elem(m0, bn, 2 * x));
                assert(list_elem(m0, bn, 2 * x) != Some(key));
                assert(list_elem(mf, bn, 2 * y) == Some(key));
            }
        }
    }
    lemma_ht_wf_rebuild(m0, mf, n, b, cn, cn);
    assert(ht_get(mf, n, key) == Some(value)) by {
        assert forall|x: nat| x < t implies #[trigger] list_elem(mf, bn, 2 * x) != Some(key) by {
            assert(2 * x < lu);
            assert(list_elem(mf, bn, 2 * x) == list_elem(m0, bn, 2 * x));
        }
        lemma_scan_prefix_found(mf, bn, key, t, t + 1);
        assert(list_length(mf, bn).unwrap() / 2 == t + 1);
    }
    lemma_ht_get_eq_other_buckets(m0, mf, n, b, cn, cn);
    assert forall|k2: Seq<u8>|
        k2 != key implies #[trigger] ht_get(mf, n, k2) == ht_get(m0, n, k2) by {
        if ht_bucket(k2) == b {
            assert forall|x: nat|
                x < t implies #[trigger] list_elem(m0, bn, 2 * x) == list_elem(mf, bn, 2 * x) by {
                assert(2 * x < lu);
            }
            lemma_chain_scan_frame(m0, mf, bn, k2, 0, t);
            lemma_scan_grow(mf, bn, k2, 0, t);
            lemma_chain_scan_props(m0, bn, k2, 0, t);
            let sc = chain_scan(m0, bn, k2, 0, t);
            if sc is Some {
                let j = sc.unwrap();
                assert(chain_scan(mf, bn, k2, 0, t + 1) == Some(j));
                assert(2 * j + 1 < lu);
                assert(list_elem(mf, bn, 2 * j + 1) == list_elem(m0, bn, 2 * j + 1));
            } else {
                assert(list_elem(mf, bn, 2 * t) == Some(key));
                assert(Some(key) != Some(k2));
                assert(chain_scan(mf, bn, k2, 0, t + 1) is None);
            }
        }
    }
}

/// The keys an empty-bucket insert touches.
spec fn fresh_insert_keys(n: Seq<u8>, b: nat, key: Seq<u8>) -> Set<Seq<u8>> {
    Set::new(
        |k: Seq<u8>|
            k == list_len_key(ht_hashlist_name(n)) || k == list_elem_key(ht_hashlist_name(n), b)
                || k == list_len_key(chain_bn(n, key)) || (exists|j: nat|
                j < 2 && k == #[trigger] list_elem_key(chain_bn(n, key), j)),
    )
}

/// State shape after an empty-bucket insert: the bucket slot names the
/// key's chain, that chain holds exactly the one new tuple, and nothing
/// else moved.
#[verifier::rlimit(100)]
#[verifier::spinoff_prover]
proof fn lemma_insert_fresh_state(
    m0: Map<Seq<u8>, Seq<u8>>,
    m_a: Map<Seq<u8>, Seq<u8>>,
    m_b2: Map<Seq<u8>, Seq<u8>>,
    m_c: Map<Seq<u8>, Seq<u8>>,
    mf: Map<Seq<u8>, Seq<u8>>,
    n: Seq<u8>,
    b: nat,
    key: Seq<u8>,
    value: Seq<u8>,
    lu: nat,
)
    requires
        !list_exists(m0, chain_bn(n, key)),
        agrees_except(m0, m_a, set![list_len_key(ht_hashlist_name(n))]),
        forall|x: nat|
            #[trigger] list_elem(m_a, ht_hashlist_name(n), x) == list_elem(
                m0,
                ht_hashlist_name(n),
                x,
            ),
        m_b2 == list_overwrite_post(m_a, ht_hashlist_name(n), b, key),
        list_length(m_b2, ht_hashlist_name(n)) is Some,
        (list_exists(m_b2, chain_bn(n, key)) && m_c == m_b2) || m_c == list_set_len_post(
            m_b2,
            chain_bn(n, key),
            0,
        ),
        list_length(m_c, chain_bn(n, key)) == Some(lu),
        lu + 2 <= usize::MAX,
        mf == crate::tuple_list::tl_overwrite_post(
            list_set_len_post(m_c, chain_bn(n, key), lu + 2),
            chain_bn(n, key),
            (((lu + 2) / 2 - 1) * 2) as nat,
            seq![key, value],
        ),
    ensures
        list_length(mf, chain_bn(n, key)) == Some(2nat),
        list_elem(mf, chain_bn(n, key), 0) == Some(key),
        list_elem(mf, chain_bn(n, key), 1) == Some(value),
        list_elem(mf, ht_hashlist_name(n), b) == Some(key),
        forall|b2: nat|
            b2 != b ==> #[trigger] list_elem(mf, ht_hashlist_name(n), b2) == list_elem(
                m0,
                ht_hashlist_name(n),
                b2,
            ),
        list_length(mf, ht_hashlist_name(n)) is Some,
        agrees_except(m0, mf, fresh_insert_keys(n, b, key)),
{
    let hn = ht_hashlist_name(n);
    let bn = chain_bn(n, key);
    let vs = seq![key, value];
    // The chain named by the key did not exist, so it was created empty.
    assert(!list_exists(m_b2, bn)) by {
        lemma_hashlist_chain_keys_distinct(n, key, b, 0);
        assert(!set![list_len_key(hn)].contains(list_len_key(bn)));
        assert(list_exists(m_a, bn) == list_exists(m0, bn));
    }
    assert(m_c == list_set_len_post(m_b2, bn, 0));
    lemma_length_after_set_len(m_b2, bn, 0);
    assert(lu == 0);
    assert(((0 + 2) / 2 - 1) * 2 == 0);
    let mmid = list_set_len_post(m_c, bn, 2);
    lemma_length_after_set_len(m_c, bn, 2);
    crate::tuple_list::lemma_tl_overwrite_post_props(mmid, bn, 0, vs);
    assert(list_length(mf, bn) == Some(2nat));
    assert(list_elem(mf, bn, 0) == Some(key)) by {
        assert(list_elem(mf, bn, 0 + 0) == Some(vs[0]));
    }
    assert(list_elem(mf, bn, 1) == Some(value)) by {
        assert(list_elem(mf, bn, 0 + 1) == Some(vs[1]));
    }
    // Bucket slots: `b` now names the key's chain; others are untouched.
    lemma_length_after_set_elem(m_a, hn, b, key);
    assert forall|x: nat| #[trigger] list_elem(mf, hn, x) == list_elem(m_b2, hn, x) by {
        assert forall|j: nat| list_elem_key(hn, x) != #[trigger] list_elem_key(bn, j) by {
            lemma_hashlist_chain_keys_distinct(n, key, x, j);
        }
        lemma_hashlist_chain_keys_distinct(n, key, x, 0);
        assert(list_elem(mmid, hn, x) == list_elem(m_c, hn, x));
        assert(list_elem(m_c, hn, x) == list_elem(m_b2, hn, x));
        assert(list_elem(mf, hn, x) == list_elem(mmid, hn, x)) by {
            assert(list_elem_key(hn, x) != list_elem_key(bn, 0));
            assert(list_elem_key(hn, x) != list_elem_key(bn, 1));
        }
    }
    assert(list_elem(mf, hn, b) == Some(key));
    assert forall|b2: nat|
        b2 != b implies #[trigger] list_elem(mf, hn, b2) == list_elem(m0, hn, b2) by {
        if list_elem_key(hn, b2) == list_elem_key(hn, b) {
            lemma_elem_keys_injective(hn, b2, b);
        }
        assert(list_elem(m_b2, hn, b2) == list_elem(m_a, hn, b2));
    }
    assert(list_length(mf, hn) is Some) by {
        assert forall|j: nat| list_len_key(hn) != #[trigger] list_elem_key(bn, j) by {
            lemma_hashlist_chain_keys_distinct(n, key, 0, j);
        }
        lemma_hashlist_chain_keys_distinct(n, key, 0, 0);
        assert(list_length(mmid, hn) == list_length(m_c, hn));
        assert(list_length(m_c, hn) == list_length(m_b2, hn));
        assert(list_length(mf, hn) == list_length(mmid, hn));
    }
    let stot = fresh_insert_keys(n, b, key);
    assert(agrees_except(m0, mf, stot)) by {
        assert forall|k: Seq<u8>| !stot.contains(k) implies (#[trigger] m0.contains_key(k)
            <==> mf.contains_key(k)) && (m0.contains_key(k) ==> m0[k] == mf[k]) by {
            assert(k != list_len_key(hn));
            assert(k != list_elem_key(hn, b));
            assert(k != list_len_key(bn));
            assert(k != list_elem_key(bn, 0));
            assert(k != list_elem_key(bn, 1));
            assert(!set![list_len_key(hn)].contains(k));
            assert(m_a.contains_key(k) == m0.contains_key(k) && (m0.contains_key(k) ==> m_a[k]
                == m0[k]));
            assert(!Set::new(
                |k2: Seq<u8>|
                    exists|j: nat|
                        j < vs.len() && k2 == #[trigger] list_elem_key(bn, (0 + j) as nat),
            ).contains(k)) by {
                if exists|j: nat| j < vs.len() && k == #[trigger] list_elem_key(bn, (0 + j) as nat) {
                    let j = choose|j: nat|
                        j < vs.len() && k == #[trigger] list_elem_key(bn, (0 + j) as nat);
                    assert(j == 0 || j == 1);
                }
            }
            assert(m_b2.contains_key(k) == m_a.contains_key(k) && (m_a.contains_key(k)
                ==> m_b2[k] == m_a[k]));
            assert(m_c.contains_key(k) == m_b2.contains_key(k) && (m_b2.contains_key(k)
                ==> m_c[k] == m_b2[k]));
            assert(mmid.contains_key(k) == m_c.contains_key(k) && (m_c.contains_key(k)
                ==> mmid[k] == m_c[k]));
            assert(mf.contains_key(k) == mmid.contains_key(k) && (mmid.contains_key(k) ==> mf[k]
                == mmid[k]));
        }
    }
}

/// Success case: the bucket was empty; it was pointed at a fresh chain
/// named by the key, holding the single tuple (key, value).
#[verifier::rlimit(100)]
#[verifier::spinoff_prover]
proof fn lemma_insert_fresh_ok(
    m0: Map<Seq<u8>, Seq<u8>>,
    m_a: Map<Seq<u8>, Seq<u8>>,
    m_b2: Map<Seq<u8>, Seq<u8>>,
    m_c: Map<Seq<u8>, Seq<u8>>,
    mf: Map<Seq<u8>, Seq<u8>>,
    n: Seq<u8>,
    b: nat,
    key: Seq<u8>,
    value: Seq<u8>,
    lu: nat,
)
    requires
        ht_wf(m0, n),
        no_colon(key),
        b == ht_bucket(key),
        list_elem(m0, ht_hashlist_name(n), b) is None,
        agrees_except(m0, m_a, set![list_len_key(ht_hashlist_name(n))]),
        forall|x: nat|
            #[trigger] list_elem(m_a, ht_hashlist_name(n), x) == list_elem(
                m0,
                ht_hashlist_name(n),
                x,
            ),
        m_b2 == list_overwrite_post(m_a, ht_hashlist_name(n), b, key),
        list_length(m_b2, ht_hashlist_name(n)) is Some,
        (list_exists(m_b2, chain_bn(n, key)) && m_c == m_b2) || m_c == list_set_len_post(
            m_b2,
            chain_bn(n, key),
            0,
        ),
        list_length(m_c, chain_bn(n, key)) == Some(lu),
        lu + 2 <= usize::MAX,
        mf == crate::tuple_list::tl_overwrite_post(
            list_set_len_post(m_c, chain_bn(n, key), lu + 2),
            chain_bn(n, key),
            (((lu + 2) / 2 - 1) * 2) as nat,
            seq![key, value],
        ),
    ensures
        ht_wf(mf, n),
        ht_get(mf, n, key) == Some(value),
        forall|k2: Seq<u8>| k2 != key ==> #[trigger] ht_get(mf, n, k2) == ht_get(m0, n, k2),
{
    let hn = ht_hashlist_name(n);
    let bn = chain_bn(n, key);
    assert(!list_exists(m0, bn));
    lemma_insert_fresh_state(m0, m_a, m_b2, m_c, mf, n, b, key, value, lu);
    let stot = fresh_insert_keys(n, b, key);
    assert forall|k: Seq<u8>|
        #[trigger] stot.contains(k) implies k == list_len_key(hn) || k == list_elem_key(hn, b)
        || in_chain_footprint(n, key, k) by {}
    lemma_ht_transfer_outside(m0, mf, n, b, key, key, stot);
    assert(chain_wf(mf, n, b, key)) by {
        assert(list_length(mf, bn).unwrap() / 2 == 1);
        assert forall|x: nat|
            x < 1 implies (#[trigger] list_elem(mf, bn, 2 * x) is Some <==> list_elem(
            mf,
            bn,
            2 * x + 1,
        ) is Some) by {
            assert(2 * x == 0 && 2 * x + 1 == 1);
        }
        assert forall|x: nat|
            x < 1 implies (#[trigger] list_elem(mf, bn, 2 * x) matches Some(k) ==> ht_bucket(k)
            == b && no_colon(k)) by {
            assert(2 * x == 0);
        }
    }
    lemma_ht_wf_rebuild(m0, mf, n, b, key, key);
    assert(ht_get(mf, n, key) == Some(value)) by {
        assert(list_length(mf, bn).unwrap() / 2 == 1);
        assert(chain_scan(mf, bn, key, 0, 1) == Some(0nat)) by {
            assert(list_elem(mf, bn, 2 * 0) == Some(key));
        }
        assert(list_elem(mf, bn, 2 * 0 + 1) == Some(value));
    }
    lemma_ht_get_eq_other_buckets(m0, mf, n, b, key, key);
    assert forall|k2: Seq<u8>|
        k2 != key implies #[trigger] ht_get(mf, n, k2) == ht_get(m0, n, k2) by {
        if ht_bucket(k2) == b {
            assert(ht_get(m0, n, k2) is None);
            assert(list_elem(mf, bn, 2 * 0) == Some(key));
            assert(chain_scan(mf, bn, k2, 0, 1) is None) by {
                assert(list_elem(mf, bn, 2 * 0) != Some(k2));
                assert(chain_scan(mf, bn, k2, 1, 1) is None);
            }
            assert(ht_get(mf, n, k2) is None);
        }
    }
}


/// Success case of a delete: the key sat at tuple `i` of the recorded
/// chain and both its slots were tombstoned, shrinking the chain only
/// through the tail rule.
#[verifier::rlimit(100)]
#[verifier::spinoff_prover]
proof fn lemma_delete_found_ok(
    m0: Map<Seq<u8>, Seq<u8>>,
    mf: Map<Seq<u8>, Seq<u8>>,
    n: Seq<u8>,
    b: nat,
    cn: Seq<u8>,
    key: Seq<u8>,
    i: nat,
    l: nat,
)
    requires
        ht_wf(m0, n),
        no_colon(key),
        b == ht_bucket(key),
        list_elem(m0, ht_hashlist_name(n), b) == Some(cn),
        list_length(m0, chain_bn(n, cn)) == Some(l),
        i < l / 2,
        list_elem(m0, chain_bn(n, cn), 2 * i) == Some(key),
        agrees_except(
            m0,
            mf,
            crate::tuple_list::tl_footprint(chain_bn(n, cn), 2 * i, 2),
        ),
        list_elem(mf, chain_bn(n, cn), 2 * i) is None,
        list_elem(mf, chain_bn(n, cn), 2 * i + 1) is None,
        list_length(mf, chain_bn(n, cn)) == list_length(m0, chain_bn(n, cn)) || ((i + 1) * 2 == l
            && list_length(mf, chain_bn(n, cn)) == Some((l - 2) as nat)),
    ensures
        ht_wf(mf, n),
        ht_get(mf, n, key) is None,
        forall|k2: Seq<u8>| k2 != key ==> #[trigger] ht_get(mf, n, k2) == ht_get(m0, n, k2),
{
    let hn = ht_hashlist_name(n);
    let bn = chain_bn(n, cn);
    let fpd = crate::tuple_list::tl_footprint(bn, 2 * i, 2);
    assert(chain_wf(m0, n, b, cn));
    assert(l % 2 == 0);
    let t = l / 2;
    // Slots other than the deleted tuple's are untouched.
    assert forall|x: nat|
        x != 2 * i && x != 2 * i + 1 implies #[trigger] list_elem(mf, bn, x) == list_elem(
        m0,
        bn,
        x,
    ) by {
        lemma_list_keys_distinct(bn, x);
        assert forall|jj: nat|
            jj < 2 implies list_elem_key(bn, x) != #[trigger] list_elem_key(
                bn,
                (2 * i + jj) as nat,
            ) by {
            if list_elem_key(bn, x) == list_elem_key(bn, (2 * i + jj) as nat) {
                lemma_elem_keys_injective(bn, x, (2 * i + jj) as nat);
            }
        }
        assert(!fpd.contains(list_elem_key(bn, x)));
    }
    // Bucket slots are untouched.
    assert forall|b2: nat| #[trigger] list_elem(mf, hn, b2) == list_elem(m0, hn, b2) by {
        assert forall|jj: nat|
            list_elem_key(hn, b2) != #[trigger] list_elem_key(bn, jj) by {
            lemma_hashlist_chain_keys_distinct(n, cn, b2, jj);
        }
        lemma_hashlist_chain_keys_distinct(n, cn, b2, 0);
        assert(!fpd.contains(list_elem_key(hn, b2)));
    }
    assert(list_length(mf, hn) is Some) by {
        assert forall|jj: nat| list_len_key(hn) != #[trigger] list_elem_key(bn, jj) by {
            lemma_hashlist_chain_keys_distinct(n, cn, 0, jj);
        }
        lemma_hashlist_chain_keys_distinct(n, cn, 0, 0);
        assert(!fpd.contains(list_len_key(hn)));
        assert(list_length(mf, hn) == list_length(m0, hn));
    }
    lemma_tl_fp_in_chain(n, cn, 2 * i, 2);
    let sfp = Set::new(|k: Seq<u8>| in_chain_footprint(n, cn, k));
    assert(agrees_except(m0, mf, sfp)) by {
        assert forall|k: Seq<u8>| !sfp.contains(k) implies !fpd.contains(k) by {}
    }
    lemma_ht_transfer_outside(m0, mf, n, b, cn, cn, sfp);
    let lf = list_length(mf, bn).unwrap();
    let tf = lf / 2;
    assert(tf == t || ((i + 1) * 2 == l && tf == t - 1)) by (nonlinear_arith)
        requires
            l % 2 == 0,
            t == l / 2,
            lf == l || ((i + 1) * 2 == l && lf == l - 2),
            tf == lf / 2,
    ;
    assert(chain_wf(mf, n, b, cn)) by {
        assert(lf % 2 == 0) by (nonlinear_arith)
            requires
                l % 2 == 0,
                lf == l || lf == l - 2 && l >= 2,
        ;
        assert forall|x: nat|
            x < tf implies (#[trigger] list_elem(mf, bn, 2 * x) is Some <==> list_elem(
            mf,
            bn,
            2 * x + 1,
        ) is Some) by {
            if x != i {
                assert(2 * x != 2 * i && 2 * x != 2 * i + 1);
                assert(2 * x + 1 != 2 * i && 2 * x + 1 != 2 * i + 1);
            }
        }
        assert forall|x: nat|
            x < tf implies (#[trigger] list_elem(mf, bn, 2 * x) matches Some(k) ==> ht_bucket(k)
            == b && no_colon(k)) by {
            if x != i {
                assert(list_elem(mf, bn, 2 * x) == list_elem(m0, bn, 2 * x));
            }
        }
        assert forall|x: nat, y: nat|
            x < y < tf && #[trigger] list_elem(mf, bn, 2 * x) is Some implies list_elem(
            mf,
            bn,
            2 * x,
        ) != #[trigger] list_elem(mf, bn, 2 * y) by {
            if x != i && y != i {
                assert(list_elem(mf, bn, 2 * x) == list_elem(m0, bn, 2 * x));
                assert(list_elem(mf, bn, 2 * y) == list_elem(m0, bn, 2 * y));
            }
        }
    }
    lemma_ht_wf_rebuild(m0, mf, n, b, cn, cn);
    // The deleted key can no longer be found.
    assert(ht_get(mf, n, key) is None) by {
        lemma_chain_scan_props(mf, bn, key, 0, tf);
        let sc = chain_scan(mf, bn, key, 0, tf);
        if sc is Some {
            let jj = sc.unwrap();
            assert(list_elem(mf, bn, 2 * jj) == Some(key));
            assert(jj != i);
            assert(list_elem(m0, bn, 2 * jj) == Some(key));
            assert(list_elem(m0, bn, 2 * jj) != list_elem(m0, bn, 2 * i)) by {
                if jj < i {
                    assert(list_elem(m0, bn, 2 * jj) != list_elem(m0, bn, 2 * i));
                } else {
                    assert(list_elem(m0, bn, 2 * i) != list_elem(m0, bn, 2 * jj));
                }
            }
            assert(false);
        }
    }
    // Other keys scan to the same tuple and read unchanged value slots.
    lemma_ht_get_eq_other_buckets(m0, mf, n, b, cn, cn);
    assert forall|k2: Seq<u8>|
        k2 != key implies #[trigger] ht_get(mf, n, k2) == ht_get(m0, n, k2) by {
        if ht_bucket(k2) == b {
            assert forall|x: nat|
                x < tf implies (#[trigger] list_elem(m0, bn, 2 * x) == list_elem(mf, bn, 2 * x)
                || (list_elem(m0, bn, 2 * x) != Some(k2) && list_elem(mf, bn, 2 * x) != Some(
                k2,
            ))) by {
                if x == i {
                    assert(list_elem(m0, bn, 2 * i) == Some(key));
                    assert(list_elem(mf, bn, 2 * i) is None);
                }
            }
            lemma_chain_scan_frame(m0, mf, bn, k2, 0, tf);
            lemma_chain_scan_props(m0, bn, k2, 0, t);
            lemma_chain_scan_props(m0, bn, k2, 0, tf);
            if tf == t {
                let sc = chain_scan(m0, bn, k2, 0, t);
                if sc is Some {
                    let jj = sc.unwrap();
                    assert(jj != i);
                    assert(2 * jj + 1 != 2 * i && 2 * jj + 1 != 2 * i + 1);
                    assert(list_elem(mf, bn, 2 * jj + 1) == list_elem(m0, bn, 2 * jj + 1));
                }
            } else {
                // The chain shrank by its last tuple, the one deleted.
                assert(tf == t - 1 && i == tf);
                lemma_scan_grow(m0, bn, k2, 0, tf);
                let sc = chain_scan(m0, bn, k2, 0, tf);
                assert(list_elem(m0, bn, 2 * tf) == Some(key));
                assert(chain_scan(m0, bn, k2, 0, t) == sc) by {
                    if sc is Some {
                    } else {
                        assert(chain_scan(m0, bn, k2, 0, tf + 1) == (if list_elem(
                            m0,
                            bn,
                            2 * tf,
                        ) == Some(k2) {
                            Some(tf)
                        } else {
                            None
                        }));
                    }
                }
                if sc is Some {
                    let jj = sc.unwrap();
                    assert(jj < tf && jj != i);
                    assert(list_elem(mf, bn, 2 * jj + 1) == list_elem(m0, bn, 2 * jj + 1));
                }
            }
        }
    }
}


/// A key sitting whole in a well-formed chain is found by a lookup.
proof fn lemma_found_get_some(
    m0: Map<Seq<u8>, Seq<u8>>,
    n: Seq<u8>,
    b: nat,
    cn: Seq<u8>,
    key: Seq<u8>,
    i: nat,
    l: nat,
)
    requires
        ht_wf(m0, n),
        b == ht_bucket(key),
        list_elem(m0, ht_hashlist_name(n), b) == Some(cn),
        list_length(m0, chain_bn(n, cn)) == Some(l),
        i < l / 2,
        list_elem(m0, chain_bn(n, cn), 2 * i) == Some(key),
    ensures
        ht_get(m0, n, key) is Some,
{
    let bn = chain_bn(n, cn);
    assert(chain_wf(m0, n, b, cn));
    assert forall|x: nat| x < i implies #[trigger] list_elem(m0, bn, 2 * x) != Some(key) by {
        if list_elem(m0, bn, 2 * x) is Some {
            assert(list_elem(m0, bn, 2 * x) != list_elem(m0, bn, 2 * i));
        }
    }
    lemma_scan_prefix_found(m0, bn, key, i, l / 2);
    assert(list_elem(m0, bn, 2 * i + 1) is Some);
}

/// Bundles the facts a successful in-chain tuple delete leaves behind.
#[verifier::rlimit(100)]
#[verifier::spinoff_prover]
proof fn lemma_delete_hit(
    m0: Map<Seq<u8>, Seq<u8>>,
    mf: Map<Seq<u8>, Seq<u8>>,
    n: Seq<u8>,
    b: nat,
    cn: Seq<u8>,
    key: Seq<u8>,
    i: nat,
    l: nat,
)
    requires
        ht_wf(m0, n),
        no_colon(key),
        b == ht_bucket(key),
        list_elem(m0, ht_hashlist_name(n), b) == Some(cn),
        list_length(m0, chain_bn(n, cn)) == Some(l),
        i < l / 2,
        list_elem(m0, chain_bn(n, cn), 2 * i) == Some(key),
        agrees_except(m0, mf, crate::tuple_list::tl_footprint(chain_bn(n, cn), 2 * i, 2)),
        list_elem(mf, chain_bn(n, cn), crate::tuple_list::tl_slot(i, 2, 0)) is None,
        list_elem(mf, chain_bn(n, cn), crate::tuple_list::tl_slot(i, 2, 1)) is None,
        list_length(mf, chain_bn(n, cn)) == list_length(m0, chain_bn(n, cn)) || ((i + 1) * 2 == l
            && list_length(mf, chain_bn(n, cn)) == Some((l - 2) as nat)),
    ensures
        ht_wf(mf, n),
        ht_get(m0, n, key) is Some,
        ht_get(mf, n, key) is None,
        forall|k2: Seq<u8>| k2 != key ==> #[trigger] ht_get(mf, n, k2) == ht_get(m0, n, k2),
{
    let bn = chain_bn(n, cn);
    assert(list_elem(mf, bn, 2 * i) is None) by {
        assert(crate::tuple_list::tl_slot(i, 2, 0) == 2 * i);
    }
    assert(list_elem(mf, bn, 2 * i + 1) is None) by {
        assert(crate::tuple_list::tl_slot(i, 2, 1) == 2 * i + 1);
    }
    lemma_delete_found_ok(m0, mf, n, b, cn, key, i, l);
    lemma_found_get_some(m0, n, b, cn, key, i, l);
}


/// The key slot of tuple `t_i` of the chain recorded in bucket `b` holds
/// `key`.
pub open spec fn scan_entry_at(
    m: Map<Seq<u8>, Seq<u8>>,
    n: Seq<u8>,
    b: nat,
    t_i: nat,
    key: Seq<u8>,
) -> bool {
    &&& list_elem(m, ht_hashlist_name(n), b) is Some
    &&& ({
        let cn = list_elem(m, ht_hashlist_name(n), b).unwrap();
        &&& list_length(m, chain_bn(n, cn)) is Some
        &&& t_i < list_length(m, chain_bn(n, cn)).unwrap() / 2
        &&& list_elem(m, chain_bn(n, cn), 2 * t_i) == Some(key)
    })
}

/// Two distinct slots of a well-formed table never hold the same key: the
/// key's hash pins its bucket, and keys are unique within a chain.
proof fn lemma_scan_entries_distinct(
    m: Map<Seq<u8>, Seq<u8>>,
    n: Seq<u8>,
    b1: nat,
    t1: nat,
    b2: nat,
    t2: nat,
    key: Seq<u8>,
)
    requires
        ht_wf(m, n),
        scan_entry_at(m, n, b1, t1, key),
        scan_entry_at(m, n, b2, t2, key),
    ensures
        b1 == b2 && t1 == t2,
{
    let cn1 = list_elem(m, ht_hashlist_name(n), b1).unwrap();
    let cn2 = list_elem(m, ht_hashlist_name(n), b2).unwrap();
    assert(chain_wf(m, n, b1, cn1));
    assert(chain_wf(m, n, b2, cn2));
    assert(ht_bucket(key) == b1);
    assert(ht_bucket(key) == b2);
    if t1 != t2 {
        if t1 < t2 {
            assert(list_elem(m, chain_bn(n, cn1), 2 * t1) != list_elem(m, chain_bn(n, cn1), 2
                * t2));
        } else {
            assert(list_elem(m, chain_bn(n, cn1), 2 * t2) != list_elem(m, chain_bn(n, cn1), 2
                * t1));
        }
    }
}

/// A whole tuple of a well-formed chain is what the lookup of its key
/// returns.
proof fn lemma_entry_get(
    m: Map<Seq<u8>, Seq<u8>>,
    n: Seq<u8>,
    b: nat,
    cn: Seq<u8>,
    k: Seq<u8>,
    i: nat,
    l: nat,
)
    requires
        ht_wf(m, n),
        list_elem(m, ht_hashlist_name(n), b) == Some(cn),
        list_length(m, chain_bn(n, cn)) == Some(l),
        i < l / 2,
        list_elem(m, chain_bn(n, cn), 2 * i) == Some(k),
    ensures
        ht_bucket(k) == b,
        ht_get(m, n, k) == list_elem(m, chain_bn(n, cn), 2 * i + 1),
{
    let bn = chain_bn(n, cn);
    assert(chain_wf(m, n, b, cn));
    assert forall|x: nat| x < i implies #[trigger] list_elem(m, bn, 2 * x) != Some(k) by {
        if list_elem(m, bn, 2 * x) is Some {
            assert(list_elem(m, bn, 2 * x) != list_elem(m, bn, 2 * i));
        }
    }
    lemma_scan_prefix_found(m, bn, k, i, l / 2);
    assert(list_elem(m, bn, 2 * i + 1) is Some);
}


/// Law: inserting two distinct keys in turn leaves both retrievable with
/// their own values, whether or not the keys share a bucket.
pub proof fn lemma_ht_round_trip_law(
    m0: Map<Seq<u8>, Seq<u8>>,
    m1: Map<Seq<u8>, Seq<u8>>,
    m2: Map<Seq<u8>, Seq<u8>>,
    n: Seq<u8>,
    k1: Seq<u8>,
    v1: Seq<u8>,
    k2: Seq<u8>,
    v2: Seq<u8>,
)
    requires
        k1 != k2,
        ht_get(m1, n, k1) == Some(v1),
        forall|k: Seq<u8>| k != k1 ==> #[trigger] ht_get(m1, n, k) == ht_get(m0, n, k),
        ht_get(m2, n, k2) == Some(v2),
        forall|k: Seq<u8>| k != k2 ==> #[trigger] ht_get(m2, n, k) == ht_get(m1, n, k),
    ensures
        ht_get(m2, n, k1) == Some(v1),
        ht_get(m2, n, k2) == Some(v2),
{
}

/// Helper fact carried through the scan loop: `t` is a sound bound.
pub open spec fn tl_length_bound(m: Map<Seq<u8>, Seq<u8>>, bn: Seq<u8>, t: usize) -> bool {
    list_length(m, bn) is Some && t as nat == list_length(m, bn).unwrap() / 2
}

/// If the first match lies at `i`, the scan over the full range finds it.
proof fn lemma_scan_prefix_found(
    m: Map<Seq<u8>, Seq<u8>>,
    bn: Seq<u8>,
    key: Seq<u8>,
    i: nat,
    t: nat,
)
    requires
        i < t,
        list_elem(m, bn, 2 * i) == Some(key),
        forall|x: nat| x < i ==> #[trigger] list_elem(m, bn, 2 * x) != Some(key),
    ensures
        chain_scan(m, bn, key, 0, t) == Some(i),
{
    lemma_scan_from(m, bn, key, 0, i, t);
}

proof fn lemma_scan_from(m: Map<Seq<u8>, Seq<u8>>, bn: Seq<u8>, key: Seq<u8>, i0: nat, i: nat, t: nat)
    requires
        i0 <= i < t,
        list_elem(m, bn, 2 * i) == Some(key),
        forall|x: nat| i0 <= x < i ==> #[trigger] list_elem(m, bn, 2 * x) != Some(key),
    ensures
        chain_scan(m, bn, key, i0, t) == Some(i),
    decreases i - i0,
{
    if i0 < i {
        lemma_scan_from(m, bn, key, i0 + 1, i, t);
    }
}

} // verus!
