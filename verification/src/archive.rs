//! The archive path resolver: addresses arbitrarily nested combinations
//! of hash tables, lists, and tuple lists through a typed path, resolved
//! through chains of generated indirection identifiers persisted in the
//! store itself.
//!
//! Each non-terminal path step yields an identifier naming the container
//! of the next step; the terminal step yields a concrete container handle
//! paired with the selector to apply within it (an element-analysis
//! result). Construct mode generates fresh identifiers and writes them;
//! open mode reads the identifiers previously stored.
use vstd::prelude::*;
use crate::bytes::{append_bytes, no_colon};
use crate::hashtable::Hashtable;
use crate::hashtable::{
    chain_bn,
    ht_bucket,
    ht_get,
    ht_hashlist_name,
    ht_key_footprint,
    ht_wf,
    in_chain_footprint,
    lemma_ht_get_transfer,
};
use crate::list::{
    lemma_list_keys_differ_at,
    list_elem,
    list_elem_key,
    list_exists,
    list_footprint,
    list_len_key,
    list_length,
    list_set_len_post,
    ListDb,
};
use crate::store::{agrees_except, agrees_trans, Store};
use crate::tuple_list::{tl_slot, tuple_backing_name, TupleList};

verus! {

/// One step of a path: the key, index, or (index, field, arity) selector
/// for the container at that level; `HeadMarking` marks the root.
pub enum IndexVecElement {
    Hashtable(Vec<u8>),
    List(usize),
    TupleList(usize, u16, u16),
    HeadMarking,
}

/// A resolved container handle of the kind the matching step selects.
pub enum AnalysisElement {
    Hashtable(Hashtable),
    List(ListDb),
    TupleList(TupleList),
    HeadMarking,
}

/// A resolved path: the leaf container together with the selector to
/// apply within it.
pub struct ElementAnalysisResults(pub AnalysisElement, pub IndexVecElement);

pub type IndexVec = Vec<IndexVecElement>;

pub type AE = AnalysisElement;

pub type IVE = IndexVecElement;

pub type EAR = ElementAnalysisResults;

/// An archive: a named root identifier persisted under `archive:{name}`.
pub struct Archive {
    pub name: Vec<u8>,
    pub head_index_uuid: Vec<u8>,
}

impl Archive {
    /// The root identifier has the generated shape.
    pub open spec fn wf(&self) -> bool {
        uuid_wf(self.head_index_uuid@)
    }
}

/// The store key of the root pointer of the archive named `name`.
pub open spec fn archive_key(name: Seq<u8>) -> Seq<u8> {
    seq![97u8, 114u8, 99u8, 104u8, 105u8, 118u8, 101u8, 58u8] + name
}

/// The shape of a generated indirection identifier: 36 bytes without a
/// separator.
pub open spec fn uuid_wf(u: Seq<u8>) -> bool {
    u.len() == 36 && no_colon(u)
}

/// Machine bounds a step must respect so that slot arithmetic cannot
/// overflow.
pub open spec fn ive_ok(ive: IndexVecElement) -> bool {
    match ive {
        IndexVecElement::List(i) => i < usize::MAX,
        IndexVecElement::TupleList(i, t, a) => (i as nat) * (a as nat) + (t as nat) < usize::MAX,
        _ => true,
    }
}

/// Step equivalence up to the views of its fields.
pub open spec fn ive_eq(a: IndexVecElement, b: IndexVecElement) -> bool {
    match (a, b) {
        (IndexVecElement::Hashtable(k1), IndexVecElement::Hashtable(k2)) => k1@ == k2@,
        (IndexVecElement::List(i1), IndexVecElement::List(i2)) => i1 == i2,
        (
            IndexVecElement::TupleList(i1, t1, a1),
            IndexVecElement::TupleList(i2, t2, a2),
        ) => i1 == i2 && t1 == t2 && a1 == a2,
        (IndexVecElement::HeadMarking, IndexVecElement::HeadMarking) => true,
        _ => false,
    }
}

/// Relies on uuid::Uuid::new_v4 and its hyphenated display form: 36
/// ASCII bytes, each a lowercase hex digit or a hyphen, drawn from the
/// process's random source. Nothing is assumed about distinctness of two
/// calls.
#[verifier::external_body]
fn fresh_uuid_bytes() -> (r: Vec<u8>)
    ensures
        r@.len() == 36,
        forall|i: int|
            0 <= i < 36 ==> (48 <= #[trigger] r@[i] <= 57 || 97 <= r@[i] <= 102 || r@[i] == 45),
        no_colon(r@),
{
    uuid::Uuid::new_v4().to_string().into_bytes()
}

/// Builds the root-pointer key of `name`.
fn make_archive_key(name: &[u8]) -> (k: Vec<u8>)
    ensures
        k@ == archive_key(name@),
{
    let mut k: Vec<u8> = Vec::new();
    k.push(97);
    k.push(114);
    k.push(99);
    k.push(104);
    k.push(105);
    k.push(118);
    k.push(101);
    k.push(58);
    proof {
        assert(k@ =~= seq![97u8, 114u8, 99u8, 104u8, 105u8, 118u8, 101u8, 58u8]);
    }
    append_bytes(&mut k, name);
    k
}



/// The identifier a resolved step yields by reading the store: the link
/// stored at the step's selector in the container named `prev`.
pub open spec fn step_read(
    m: Map<Seq<u8>, Seq<u8>>,
    prev: Seq<u8>,
    el: IndexVecElement,
) -> Option<Seq<u8>> {
    match el {
        IndexVecElement::Hashtable(k) => ht_get(m, prev, k@),
        IndexVecElement::List(i) => list_elem(m, prev, i as nat),
        IndexVecElement::TupleList(i, t, a) => list_elem(
            m,
            tuple_backing_name(prev),
            tl_slot(i as nat, a as nat, t as nat),
        ),
        IndexVecElement::HeadMarking => None,
    }
}

/// The backing list of the container a step with identifier `id` names.
pub open spec fn step_bn(el: IndexVecElement, id: Seq<u8>) -> Seq<u8> {
    match el {
        IndexVecElement::Hashtable(_) => ht_hashlist_name(id),
        IndexVecElement::List(_) => id,
        IndexVecElement::TupleList(..) => tuple_backing_name(id),
        IndexVecElement::HeadMarking => id,
    }
}

/// The state condition under which a step's read is faithfully
/// described: a hashtable step needs its parent table well formed.
pub open spec fn step_state_ok(
    m: Map<Seq<u8>, Seq<u8>>,
    prev: Seq<u8>,
    el: IndexVecElement,
) -> bool {
    match el {
        IndexVecElement::Hashtable(k) => ht_wf(m, prev) && no_colon(k@),
        _ => true,
    }
}

/// The identifier produced by step `j` of the path, resolved against the
/// store `m` with root identifier `hu`: a root marker yields the root,
/// every other step reads the link stored at its selector in the
/// container named by the previous step's identifier.
pub open spec fn resolved_id(
    hu: Seq<u8>,
    m: Map<Seq<u8>, Seq<u8>>,
    iv: Seq<IndexVecElement>,
    j: int,
) -> Option<Seq<u8>>
    decreases j,
{
    if j < 0 || j >= iv.len() {
        None
    } else if iv[j] is HeadMarking {
        Some(hu)
    } else if j == 0 {
        None
    } else {
        match resolved_id(hu, m, iv, j - 1) {
            Some(p) => step_read(m, p, iv[j]),
            None => None,
        }
    }
}

/// Every hashtable step among the first `upto` steps finds its parent
/// table well formed (the condition under which hashtable reads are
/// faithfully described).
pub open spec fn path_state_ok(
    hu: Seq<u8>,
    m: Map<Seq<u8>, Seq<u8>>,
    iv: Seq<IndexVecElement>,
    upto: int,
) -> bool {
    forall|j: int|
        1 <= j <= upto && (#[trigger] iv[j]) is Hashtable ==> (resolved_id(hu, m, iv, j - 1)
            matches Some(p) ==> ht_wf(m, p))
}

/// Every store key a construct-mode step may touch: the keys of the
/// container the previous identifier names.
pub open spec fn establish_footprint(
    m: Map<Seq<u8>, Seq<u8>>,
    el: IndexVecElement,
    prev: Option<Vec<u8>>,
) -> Set<Seq<u8>> {
    match (el, prev) {
        (IndexVecElement::List(_), Some(p)) => list_footprint(p@),
        (IndexVecElement::TupleList(..), Some(p)) => list_footprint(tuple_backing_name(p@)),
        (IndexVecElement::Hashtable(k), Some(p)) => ht_key_footprint(m, p@, k@),
        _ => Set::empty(),
    }
}

/// True of every key a container of this library can persist: all of
/// them live in the list-key namespace.
pub open spec fn container_key(k: Seq<u8>) -> bool {
    k.len() >= 5 && k[0] == 76u8 && k[1] == 105u8 && k[2] == 115u8 && k[3] == 116u8 && k[4]
        == 58u8
}

/// All keys of one list are container keys.
proof fn lemma_list_fp_container(d: Seq<u8>)
    ensures
        forall|k: Seq<u8>| #[trigger] list_footprint(d).contains(k) ==> container_key(k),
{
    assert forall|k: Seq<u8>| #[trigger] list_footprint(d).contains(k) implies container_key(
        k,
    ) by {
        if k != list_len_key(d) {
            let i = choose|i: nat| k == #[trigger] list_elem_key(d, i);
            assert(k == list_elem_key(d, i));
        }
    }
}

/// All keys a hashtable operation can touch are container keys.
proof fn lemma_ht_fp_container(m: Map<Seq<u8>, Seq<u8>>, n: Seq<u8>, key: Seq<u8>)
    ensures
        forall|k: Seq<u8>| #[trigger] ht_key_footprint(m, n, key).contains(k) ==> container_key(
            k,
        ),
{
    assert forall|k: Seq<u8>|
        #[trigger] ht_key_footprint(m, n, key).contains(k) implies container_key(k) by {
        if k != list_len_key(ht_hashlist_name(n)) && k != list_elem_key(
            ht_hashlist_name(n),
            ht_bucket(key),
        ) {
            if in_chain_footprint(n, key, k) {
                if k != list_len_key(chain_bn(n, key)) {
                    let i = choose|i: nat| k == #[trigger] list_elem_key(chain_bn(n, key), i);
                    assert(k == list_elem_key(chain_bn(n, key), i));
                }
            } else {
                let cn = list_elem(m, ht_hashlist_name(n), ht_bucket(key)).unwrap();
                assert(in_chain_footprint(n, cn, k));
                if k != list_len_key(chain_bn(n, cn)) {
                    let i = choose|i: nat| k == #[trigger] list_elem_key(chain_bn(n, cn), i);
                    assert(k == list_elem_key(chain_bn(n, cn), i));
                }
            }
        }
    }
}


/// A plain (colon-free, identifier-shaped) list name shares no store key
/// with a hash table's bucket list or chains, whatever the table's name:
/// table keys carry an early separator where the plain name has none.
proof fn lemma_plain_name_vs_table_forms(na: Seq<u8>, t: Seq<u8>)
    requires
        uuid_wf(na),
    ensures
        names_keys_disjoint(ht_hashlist_name(t), na),
        forall|cn: Seq<u8>| names_keys_disjoint(#[trigger] chain_bn(t, cn), na),
{
    assert(ht_hashlist_name(t)[17] == 58);
    lemma_keys_disjoint_at(na, ht_hashlist_name(t), 17);
    assert forall|cn: Seq<u8>|
        names_keys_disjoint(#[trigger] chain_bn(t, cn), na) by {
        assert(chain_bn(t, cn)[5] == 58);
        lemma_keys_disjoint_at(na, chain_bn(t, cn), 5);
    }
}

/// Law: building a path of a root marker, a list step, and a hash-table
/// leaf, then writing a value through the leaf, leaves a store in which
/// open-mode resolution of the same path reads the identifier link back
/// and finds the written value: the leaf-table writes carry an early
/// separator in every key and so cannot disturb the link written in the
/// plain-named list one level up.
pub proof fn lemma_construct_then_open_law(
    m1: Map<Seq<u8>, Seq<u8>>,
    m2: Map<Seq<u8>, Seq<u8>>,
    hu: Seq<u8>,
    u1: Seq<u8>,
    iv: Seq<IndexVecElement>,
    i: nat,
    key: Seq<u8>,
    v: Seq<u8>,
    touched: Set<Seq<u8>>,
)
    requires
        uuid_wf(hu),
        iv.len() == 3,
        iv[0] is HeadMarking,
        iv[1] matches IndexVecElement::List(ii) && ii as nat == i,
        iv[2] matches IndexVecElement::Hashtable(kk) && kk@ == key,
        // The construct-mode list step wrote the link.
        list_elem(m1, hu, i) == Some(u1),
        // The leaf write landed and left the table well formed.
        ht_get(m2, u1, key) == Some(v),
        ht_wf(m2, u1),
        no_colon(key),
        // Everything after the link write stayed inside the leaf table's
        // keys: its bucket list and its chains.
        agrees_except(m1, m2, touched),
        forall|k: Seq<u8>|
            #[trigger] touched.contains(k) ==> (list_footprint(ht_hashlist_name(u1)).contains(k)
                || (exists|cn: Seq<u8>| in_chain_footprint(u1, cn, k))),
    ensures
        path_state_ok(hu, m2, iv, 1),
        resolved_id(hu, m2, iv, 1) == Some(u1),
        step_read(m2, u1, iv[2]) == Some(v),
        step_state_ok(m2, u1, iv[2]),
{
    lemma_plain_name_vs_table_forms(hu, u1);
    assert(!touched.contains(list_elem_key(hu, i))) by {
        let k = list_elem_key(hu, i);
        lemma_list_fp_container(ht_hashlist_name(u1));
        if list_footprint(ht_hashlist_name(u1)).contains(k) {
            if k != list_len_key(ht_hashlist_name(u1)) {
                let x = choose|x: nat|
                    k == #[trigger] list_elem_key(ht_hashlist_name(u1), x);
                assert(k == list_elem_key(ht_hashlist_name(u1), x));
            }
            assert(false);
        }
        if exists|cn: Seq<u8>| in_chain_footprint(u1, cn, k) {
            let cn = choose|cn: Seq<u8>| in_chain_footprint(u1, cn, k);
            assert(names_keys_disjoint(chain_bn(u1, cn), hu));
            if k != list_len_key(chain_bn(u1, cn)) {
                let x = choose|x: nat| k == #[trigger] list_elem_key(chain_bn(u1, cn), x);
                assert(k == list_elem_key(chain_bn(u1, cn), x));
            }
            assert(false);
        }
    }
    assert(list_elem(m2, hu, i) == list_elem(m1, hu, i));
    assert(resolved_id(hu, m2, iv, 0) == Some(hu));
    assert(resolved_id(hu, m2, iv, 1) == step_read(m2, hu, iv[1]));
    assert forall|j: int|
        1 <= j <= 1 && (#[trigger] iv[j]) is Hashtable implies (resolved_id(hu, m2, iv, j - 1)
        matches Some(p) ==> ht_wf(m2, p)) by {}
}

/// The name of the leaf container a result addresses (empty for the root
/// marker).
pub open spec fn ear_cname(ear: &ElementAnalysisResults) -> Seq<u8> {
    match &ear.0 {
        AnalysisElement::Hashtable(obj) => obj.name@,
        AnalysisElement::List(obj) => obj.name@,
        AnalysisElement::TupleList(obj) => obj.name@,
        AnalysisElement::HeadMarking => Seq::empty(),
    }
}

/// The leaf container a result addresses is present in the store (its
/// backing list's length entry exists).
pub open spec fn ear_exists(m: Map<Seq<u8>, Seq<u8>>, ear: &ElementAnalysisResults) -> bool {
    match (&ear.0, &ear.1) {
        (AnalysisElement::Hashtable(obj), IndexVecElement::Hashtable(_)) => list_exists(
            m,
            ht_hashlist_name(obj.name@),
        ),
        (AnalysisElement::List(obj), IndexVecElement::List(_)) => list_exists(m, obj.name@),
        (AnalysisElement::TupleList(obj), IndexVecElement::TupleList(..)) => list_exists(
            m,
            obj.bn(),
        ),
        _ => true,
    }
}

/// No store key of the list named `d1` is one of the list named `d2`.
pub open spec fn names_keys_disjoint(d1: Seq<u8>, d2: Seq<u8>) -> bool {
    &&& list_len_key(d1) != list_len_key(d2)
    &&& forall|j: nat| list_len_key(d1) != #[trigger] list_elem_key(d2, j)
    &&& forall|i: nat| #[trigger] list_elem_key(d1, i) != list_len_key(d2)
    &&& forall|i: nat, j: nat|
        #[trigger] list_elem_key(d1, i) != #[trigger] list_elem_key(d2, j)
}

/// Both directions of key disjointness from one differing position.
proof fn lemma_keys_disjoint_at(d1: Seq<u8>, d2: Seq<u8>, pos: int)
    requires
        0 <= pos < d1.len(),
        pos < d2.len(),
        d1[pos] != d2[pos],
    ensures
        names_keys_disjoint(d1, d2),
        names_keys_disjoint(d2, d1),
{
    lemma_list_keys_differ_at(d1, d2, pos);
    lemma_list_keys_differ_at(d2, d1, pos);
}

/// All derived list names of two distinct generated identifiers are
/// pairwise key-disjoint: the plain name, the tuple backing name, the
/// bucket-list name, and every collision-chain backing name.
proof fn lemma_identifier_forms_disjoint(na: Seq<u8>, nb: Seq<u8>)
    requires
        uuid_wf(na),
        uuid_wf(nb),
        na != nb,
    ensures
        names_keys_disjoint(na, nb),
        names_keys_disjoint(na, crate::tuple_list::tuple_backing_name(nb)),
        names_keys_disjoint(crate::tuple_list::tuple_backing_name(na), nb),
        names_keys_disjoint(na, ht_hashlist_name(nb)),
        names_keys_disjoint(ht_hashlist_name(na), nb),
        forall|cn: Seq<u8>| names_keys_disjoint(na, #[trigger] chain_bn(nb, cn)),
        forall|cn: Seq<u8>| names_keys_disjoint(#[trigger] chain_bn(na, cn), nb),
        names_keys_disjoint(
            crate::tuple_list::tuple_backing_name(na),
            crate::tuple_list::tuple_backing_name(nb),
        ),
        names_keys_disjoint(
            crate::tuple_list::tuple_backing_name(na),
            ht_hashlist_name(nb),
        ),
        names_keys_disjoint(
            ht_hashlist_name(na),
            crate::tuple_list::tuple_backing_name(nb),
        ),
        forall|cn: Seq<u8>|
            names_keys_disjoint(
                crate::tuple_list::tuple_backing_name(na),
                #[trigger] chain_bn(nb, cn),
            ),
        forall|cn: Seq<u8>|
            names_keys_disjoint(
                #[trigger] chain_bn(na, cn),
                crate::tuple_list::tuple_backing_name(nb),
            ),
        names_keys_disjoint(ht_hashlist_name(na), ht_hashlist_name(nb)),
        forall|cn: Seq<u8>|
            names_keys_disjoint(ht_hashlist_name(na), #[trigger] chain_bn(nb, cn)),
        forall|cn: Seq<u8>|
            names_keys_disjoint(#[trigger] chain_bn(na, cn), ht_hashlist_name(nb)),
        forall|cn1: Seq<u8>, cn2: Seq<u8>|
            names_keys_disjoint(
                #[trigger] chain_bn(na, cn1),
                #[trigger] chain_bn(nb, cn2),
            ),
{
    // The identifiers have equal length, so they differ at some shared
    // position.
    let pos = choose|i: int| 0 <= i < 36 && na[i] != nb[i];
    assert(exists|i: int| 0 <= i < 36 && na[i] != nb[i]) by {
        if forall|i: int| 0 <= i < 36 ==> na[i] == nb[i] {
            assert(na =~= nb);
        }
    }
    let tna = crate::tuple_list::tuple_backing_name(na);
    let tnb = crate::tuple_list::tuple_backing_name(nb);
    let hna = ht_hashlist_name(na);
    let hnb = ht_hashlist_name(nb);
    lemma_keys_disjoint_at(na, nb, pos);
    assert(tnb[5] == 58 && tna[5] == 58 && tna[6 + pos] == na[pos] && tnb[6 + pos] == nb[pos]);
    assert(hna[17] == 58 && hnb[17] == 58 && hna[18 + pos] == na[pos] && hnb[18 + pos]
        == nb[pos]);
    assert(hna[0] == 72 && hnb[0] == 72 && tna[0] == 84 && tnb[0] == 84);
    lemma_keys_disjoint_at(na, tnb, 5);
    lemma_keys_disjoint_at(tna, nb, 5);
    lemma_keys_disjoint_at(na, hnb, 17);
    lemma_keys_disjoint_at(hna, nb, 17);
    lemma_keys_disjoint_at(tna, tnb, 6 + pos);
    lemma_keys_disjoint_at(tna, hnb, 0);
    lemma_keys_disjoint_at(hna, tnb, 0);
    lemma_keys_disjoint_at(hna, hnb, 18 + pos);
    assert forall|cn: Seq<u8>|
        names_keys_disjoint(na, #[trigger] chain_bn(nb, cn)) && names_keys_disjoint(
            #[trigger] chain_bn(nb, cn),
            na,
        ) by {
        assert(chain_bn(nb, cn)[5] == 58);
        lemma_keys_disjoint_at(na, chain_bn(nb, cn), 5);
    }
    assert forall|cn: Seq<u8>|
        names_keys_disjoint(#[trigger] chain_bn(na, cn), nb) && names_keys_disjoint(
            nb,
            #[trigger] chain_bn(na, cn),
        ) by {
        assert(chain_bn(na, cn)[5] == 58);
        lemma_keys_disjoint_at(nb, chain_bn(na, cn), 5);
    }
    assert forall|cn: Seq<u8>|
        names_keys_disjoint(tna, #[trigger] chain_bn(nb, cn)) && names_keys_disjoint(
            #[trigger] chain_bn(nb, cn),
            tna,
        ) by {
        assert(tna[10] == na[4]);
        assert(chain_bn(nb, cn)[10] == 58);
        lemma_keys_disjoint_at(tna, chain_bn(nb, cn), 10);
    }
    assert forall|cn: Seq<u8>|
        names_keys_disjoint(#[trigger] chain_bn(na, cn), tnb) && names_keys_disjoint(
            tnb,
            #[trigger] chain_bn(na, cn),
        ) by {
        assert(tnb[10] == nb[4]);
        assert(chain_bn(na, cn)[10] == 58);
        lemma_keys_disjoint_at(tnb, chain_bn(na, cn), 10);
    }
    assert forall|cn: Seq<u8>|
        names_keys_disjoint(hna, #[trigger] chain_bn(nb, cn)) && names_keys_disjoint(
            #[trigger] chain_bn(nb, cn),
            hna,
        ) by {
        assert(chain_bn(nb, cn)[0] == 84);
        lemma_keys_disjoint_at(hna, chain_bn(nb, cn), 0);
    }
    assert forall|cn: Seq<u8>|
        names_keys_disjoint(#[trigger] chain_bn(na, cn), hnb) && names_keys_disjoint(
            hnb,
            #[trigger] chain_bn(na, cn),
        ) by {
        assert(chain_bn(na, cn)[0] == 84);
        lemma_keys_disjoint_at(hnb, chain_bn(na, cn), 0);
    }
    assert forall|cn1: Seq<u8>, cn2: Seq<u8>|
        names_keys_disjoint(
            #[trigger] chain_bn(na, cn1),
            #[trigger] chain_bn(nb, cn2),
        ) by {
        assert(chain_bn(na, cn1)[29 + pos] == na[pos]);
        assert(chain_bn(nb, cn2)[29 + pos] == nb[pos]);
        lemma_keys_disjoint_at(chain_bn(na, cn1), chain_bn(nb, cn2), 29 + pos);
    }
}


/// The derived names an operation through `ear_a` can touch are all
/// key-disjoint from the list named `d`.
pub open spec fn name_clear_of(ear_a: &ElementAnalysisResults, d: Seq<u8>) -> bool {
    match (&ear_a.0, &ear_a.1) {
        (AnalysisElement::List(obj), IndexVecElement::List(_)) => names_keys_disjoint(
            obj.name@,
            d,
        ),
        (AnalysisElement::TupleList(obj), IndexVecElement::TupleList(..)) => names_keys_disjoint(
            obj.bn(),
            d,
        ),
        (AnalysisElement::Hashtable(obj), IndexVecElement::Hashtable(_)) => names_keys_disjoint(
            ht_hashlist_name(obj.name@),
            d,
        ) && forall|cn: Seq<u8>| names_keys_disjoint(#[trigger] chain_bn(obj.name@, cn), d),
        _ => true,
    }
}

/// A list whose name is clear of a result's footprint reads the same
/// before and after any operation confined to that footprint.
proof fn lemma_reads_untouched(
    m1: Map<Seq<u8>, Seq<u8>>,
    m2: Map<Seq<u8>, Seq<u8>>,
    ear_a: &ElementAnalysisResults,
    d: Seq<u8>,
)
    requires
        agrees_except(m1, m2, ear_a.footprint(m1)),
        name_clear_of(ear_a, d),
    ensures
        list_length(m1, d) == list_length(m2, d),
        list_exists(m1, d) == list_exists(m2, d),
        forall|x: nat| #[trigger] list_elem(m1, d, x) == list_elem(m2, d, x),
{
    let fp = ear_a.footprint(m1);
    assert(!fp.contains(list_len_key(d)));
    assert forall|x: nat| !fp.contains(#[trigger] list_elem_key(d, x)) by {}
    assert forall|x: nat| #[trigger] list_elem(m1, d, x) == list_elem(m2, d, x) by {
        assert(!fp.contains(list_elem_key(d, x)));
    }
}

/// Law: two resolved results whose leaf containers bear distinct
/// generated identifiers are isolated. An operation through the first
/// stays inside its footprint (the footprint clauses of `overwrite` and
/// `delete`), and this lemma shows that no store change confined to that
/// footprint can alter what a read through the second returns: paths
/// that share only the root marker, resolved to distinct identifier
/// chains, never affect one another's values.
pub proof fn lemma_ear_isolation(
    m1: Map<Seq<u8>, Seq<u8>>,
    m2: Map<Seq<u8>, Seq<u8>>,
    ear_a: &ElementAnalysisResults,
    ear_b: &ElementAnalysisResults,
)
    requires
        ear_a.wf(),
        ear_b.wf(),
        !(ear_a.1 is HeadMarking),
        !(ear_b.1 is HeadMarking),
        uuid_wf(ear_cname(ear_a)),
        uuid_wf(ear_cname(ear_b)),
        ear_cname(ear_a) != ear_cname(ear_b),
        agrees_except(m1, m2, ear_a.footprint(m1)),
    ensures
        ear_b.spec_read(m2) == ear_b.spec_read(m1),
{
    let na = ear_cname(ear_a);
    let nb = ear_cname(ear_b);
    lemma_identifier_forms_disjoint(na, nb);
    match (&ear_b.0, &ear_b.1) {
        (AnalysisElement::List(obj), IndexVecElement::List(_)) => {
            assert(name_clear_of(ear_a, obj.name@));
            lemma_reads_untouched(m1, m2, ear_a, obj.name@);
        },
        (AnalysisElement::TupleList(obj), IndexVecElement::TupleList(..)) => {
            assert(name_clear_of(ear_a, obj.bn()));
            lemma_reads_untouched(m1, m2, ear_a, obj.bn());
        },
        (AnalysisElement::Hashtable(obj), IndexVecElement::Hashtable(key)) => {
            let hnb = ht_hashlist_name(nb);
            assert(name_clear_of(ear_a, hnb));
            lemma_reads_untouched(m1, m2, ear_a, hnb);
            let bkt = ht_bucket(key@);
            assert(list_elem(m1, hnb, bkt) == list_elem(m2, hnb, bkt));
            let o = list_elem(m1, hnb, bkt);
            if o is Some {
                let cnb = o.unwrap();
                assert(name_clear_of(ear_a, chain_bn(nb, cnb)));
                lemma_reads_untouched(m1, m2, ear_a, chain_bn(nb, cnb));
            }
            lemma_ht_get_transfer(m1, m2, nb, key@);
        },
        _ => {},
    }
}

impl ElementAnalysisResults {
    /// The container handle and the selector are of matching kinds, and
    /// the handle is internally consistent.
    pub open spec fn wf(&self) -> bool {
        match (&self.0, &self.1) {
            (AnalysisElement::Hashtable(obj), IndexVecElement::Hashtable(_)) => obj.wf(),
            (AnalysisElement::List(_), IndexVecElement::List(_)) => true,
            (AnalysisElement::TupleList(obj), IndexVecElement::TupleList(_, _, a)) => obj.wf()
                && obj.len == a,
            (AnalysisElement::HeadMarking, IndexVecElement::HeadMarking) => true,
            _ => false,
        }
    }

    /// What a read through this result denotes in the store.
    pub open spec fn spec_read(&self, m: Map<Seq<u8>, Seq<u8>>) -> Option<Seq<u8>> {
        match (&self.0, &self.1) {
            (AnalysisElement::Hashtable(obj), IndexVecElement::Hashtable(key)) => ht_get(
                m,
                obj.name@,
                key@,
            ),
            (AnalysisElement::List(obj), IndexVecElement::List(i)) => list_elem(
                m,
                obj.name@,
                *i as nat,
            ),
            (
                AnalysisElement::TupleList(obj),
                IndexVecElement::TupleList(i, t, a),
            ) => list_elem(m, obj.bn(), tl_slot(*i as nat, *a as nat, *t as nat)),
            _ => None,
        }
    }

    /// The state condition under which reads are faithfully described:
    /// a hash-table leaf needs a well-formed table.
    pub open spec fn state_ok(&self, m: Map<Seq<u8>, Seq<u8>>) -> bool {
        match (&self.0, &self.1) {
            (AnalysisElement::Hashtable(obj), IndexVecElement::Hashtable(key)) => ht_wf(
                m,
                obj.name@,
            ) && no_colon(key@),
            _ => true,
        }
    }

    /// Every store key an operation through this result may touch.
    pub open spec fn footprint(&self, m: Map<Seq<u8>, Seq<u8>>) -> Set<Seq<u8>> {
        match (&self.0, &self.1) {
            (AnalysisElement::Hashtable(obj), IndexVecElement::Hashtable(key)) => ht_key_footprint(
                m,
                obj.name@,
                key@,
            ),
            (AnalysisElement::List(obj), IndexVecElement::List(_)) => list_footprint(obj.name@),
            (AnalysisElement::TupleList(obj), IndexVecElement::TupleList(..)) => list_footprint(
                obj.bn(),
            ),
            _ => Set::empty(),
        }
    }

    /// The selector this result carries.
    pub fn to_ive(&self) -> (r: IndexVecElement)
        ensures
            ive_eq(r, self.1),
    {
        match &self.1 {
            IndexVecElement::Hashtable(k) => IndexVecElement::Hashtable(k.clone()),
            IndexVecElement::List(i) => IndexVecElement::List(*i),
            IndexVecElement::TupleList(i, t, a) => IndexVecElement::TupleList(*i, *t, *a),
            IndexVecElement::HeadMarking => IndexVecElement::HeadMarking,
        }
    }

    /// Reads the content this result addresses; a root-marker leaf
    /// addresses nothing.
    pub fn access(&self, store: &Store) -> (r: Option<Vec<u8>>)
        requires
            self.wf(),
            ive_ok(self.1),
        ensures
            self.state_ok(store@) ==> {
                &&& (r matches Some(v) ==> self.spec_read(store@) == Some(v@))
                &&& (self.spec_read(store@) is None ==> r is None)
            },
            self.1 is HeadMarking ==> r is None,
    {
        match (&self.0, &self.1) {
            (AnalysisElement::Hashtable(obj), IndexVecElement::Hashtable(key)) => obj.get(
                store,
                key,
            ),
            (AnalysisElement::List(obj), IndexVecElement::List(index)) => obj.access(
                store,
                *index,
            ),
            (
                AnalysisElement::TupleList(obj),
                IndexVecElement::TupleList(index, tindex, _),
            ) => obj.access_tuple_elements(store, *index, *tindex),
            _ => None,
        }
    }

    /// Overwrites the content this result addresses, unconditionally:
    /// hash-table leaves insert, list and tuple-list leaves use safety
    /// overwrites that extend the length as needed.
    pub fn overwrite(&self, store: &mut Store, data: &Vec<u8>) -> (r: Result<bool, String>)
        requires
            self.wf(),
            ive_ok(self.1),
        ensures
            agrees_except(old(store)@, final(store)@, self.footprint(old(store)@)),
            self.state_ok(old(store)@) ==> (r is Ok ==> self.spec_read(final(store)@) == Some(
                data@,
            ) && self.state_ok(final(store)@)),
            self.1 is HeadMarking ==> r is Err && final(store)@ == old(store)@,
    {
        match (&self.0, &self.1) {
            (AnalysisElement::Hashtable(obj), IndexVecElement::Hashtable(key)) => obj.insert(
                store,
                key,
                data,
            ),
            (AnalysisElement::List(obj), IndexVecElement::List(index)) => {
                match obj.length(store) {
                    Some(_) => obj.safety_overwrite(store, *index, data),
                    None => Err("Failed to obtain List length".to_owned()),
                }
            },
            (
                AnalysisElement::TupleList(obj),
                IndexVecElement::TupleList(index, tindex, _),
            ) => {
                match obj.list.length(store) {
                    Some(_) => obj.safety_overwrite_tuple_elements(store, *index, *tindex, data),
                    None => Err("Failed to obtain List length".to_owned()),
                }
            },
            _ => Err("Incorrect ElementAnalysisResults (EAR) object format".to_owned()),
        }
    }

    /// Deletes the content this result addresses: a hash-table leaf
    /// removes the key's entry, list and tuple-list leaves delete the
    /// selected slot under the tail-only length rule.
    pub fn delete(&self, store: &mut Store) -> (r: Result<bool, String>)
        requires
            self.wf(),
            ive_ok(self.1),
        ensures
            agrees_except(old(store)@, final(store)@, self.footprint(old(store)@)),
            self.state_ok(old(store)@) ==> (r is Ok ==> self.spec_read(final(store)@) is None),
            self.state_ok(old(store)@) ==> (r is Ok ==> self.state_ok(final(store)@)),
            self.1 is HeadMarking ==> r is Err && final(store)@ == old(store)@,
    {
        match (&self.0, &self.1) {
            (AnalysisElement::Hashtable(obj), IndexVecElement::Hashtable(key)) => obj.delete(
                store,
                key,
            ),
            (AnalysisElement::List(obj), IndexVecElement::List(index)) => {
                if *index != 0 {
                    match obj.length(store) {
                        Some(_) => {},
                        None => {
                            return Err("Failed to obtain List length".to_owned());
                        },
                    }
                }
                obj.delete(store, *index)
            },
            (
                AnalysisElement::TupleList(obj),
                IndexVecElement::TupleList(index, tindex, _),
            ) => {
                match obj.list.length(store) {
                    Some(_) => obj.delete_tuple_elements(store, *index, *tindex),
                    None => Err("Failed to obtain List length".to_owned()),
                }
            },
            _ => Err("Incorrect ElementAnalysisResults (EAR) object format".to_owned()),
        }
    }
}


impl Archive {
    /// Creates (or re-roots) the archive named `name`: generates a fresh
    /// root identifier and persists it under the archive's lookup key,
    /// overwriting any previous root.
    pub fn new_object(store: &mut Store, name: Vec<u8>) -> (r: Result<Archive, String>)
        ensures
            r matches Ok(a) ==> a.name@ == name@ && a.wf() && final(store)@
                == old(store)@.insert(archive_key(name@), a.head_index_uuid@),
            agrees_except(old(store)@, final(store)@, set![archive_key(name@)]),
    {
        let head_index_uuid = fresh_uuid_bytes();
        let ak = make_archive_key(name.as_slice());
        match store.insert(ak.as_slice(), head_index_uuid.as_slice()) {
            Ok(_) => Ok(Archive { name, head_index_uuid }),
            Err(e) => Err(e),
        }
    }

    /// Opens the archive named `name` if a root identifier is persisted
    /// for it.
    pub fn open_object(store: &Store, name: Vec<u8>) -> (r: Option<Archive>)
        ensures
            r matches Some(a) ==> a.name@ == name@ && store@.contains_key(archive_key(name@))
                && a.head_index_uuid@ == store@[archive_key(name@)],
            !store@.contains_key(archive_key(name@)) ==> r is None,
    {
        let ak = make_archive_key(name.as_slice());
        match store.get(ak.as_slice()) {
            Ok(Some(v)) => Some(Archive { name, head_index_uuid: v }),
            _ => None,
        }
    }

    /// Resolves one step in open mode: reads the identifier previously
    /// stored at the step's selector in the container named by the
    /// previous level's identifier; the root marker yields the archive's
    /// own root identifier without touching the store.
    fn analysis_element(
        &self,
        store: &Store,
        el: &IndexVecElement,
        previous_parsing_result_data: Option<Vec<u8>>,
    ) -> (r: Option<Vec<u8>>)
        requires
            !(el is HeadMarking) ==> previous_parsing_result_data is Some,
            ive_ok(*el),
        ensures
            el is HeadMarking ==> (r matches Some(v) && v@ == self.head_index_uuid@),
            el matches IndexVecElement::List(i) ==> (r matches Some(v) ==> (
            previous_parsing_result_data matches Some(p) && list_elem(store@, p@, i as nat)
                == Some(v@))),
            el matches IndexVecElement::TupleList(i, t, a) ==> (r matches Some(v) ==> (
            previous_parsing_result_data matches Some(p) && list_elem(
                store@,
                crate::tuple_list::tuple_backing_name(p@),
                tl_slot(i as nat, a as nat, t as nat),
            ) == Some(v@))),
            el matches IndexVecElement::Hashtable(k) ==> (r matches Some(v) ==> (
            previous_parsing_result_data matches Some(p) && (ht_wf(store@, p@) ==> ht_get(
                store@,
                p@,
                k@,
            ) == Some(v@)))),
            el matches IndexVecElement::List(i) ==> (previous_parsing_result_data matches Some(
                p,
            ) ==> ((!list_exists(store@, p@) || list_elem(store@, p@, i as nat) is None) ==> r
                is None)),
            el matches IndexVecElement::TupleList(i, t, a) ==> (previous_parsing_result_data
                matches Some(p) ==> ((!list_exists(
                store@,
                crate::tuple_list::tuple_backing_name(p@),
            ) || list_elem(
                store@,
                crate::tuple_list::tuple_backing_name(p@),
                tl_slot(i as nat, a as nat, t as nat),
            ) is None) ==> r is None)),
            el matches IndexVecElement::Hashtable(k) ==> (previous_parsing_result_data
                matches Some(p) ==> ((!list_exists(store@, ht_hashlist_name(p@)) || (ht_wf(
                store@,
                p@,
            ) && ht_get(store@, p@, k@) is None)) ==> r is None)),
    {
        match el {
            IndexVecElement::Hashtable(key) => {
                match Hashtable::open(store, previous_parsing_result_data.unwrap()) {
                    Some(h) => h.get(store, key),
                    None => None,
                }
            },
            IndexVecElement::List(index) => {
                match ListDb::open(store, previous_parsing_result_data.unwrap()) {
                    Some(l) => l.access(store, *index),
                    None => None,
                }
            },
            IndexVecElement::TupleList(index, tuple_index, len) => {
                match TupleList::open(store, previous_parsing_result_data.unwrap(), *len) {
                    Some(t) => t.access_tuple_elements(store, *index, *tuple_index),
                    None => None,
                }
            },
            IndexVecElement::HeadMarking => Some(self.head_index_uuid.clone()),
        }
    }

    /// Resolves one step in construct mode: generates a fresh identifier
    /// and writes it at the step's selector in the container named by the
    /// previous level's identifier (opened constructively), overwriting
    /// whatever was stored there; the root marker yields the archive's
    /// own root identifier without generating anything.
    fn establish_uuid_index(
        &self,
        store: &mut Store,
        el: &IndexVecElement,
        previous_parsing_result_data: Option<Vec<u8>>,
    ) -> (r: Result<Vec<u8>, String>)
        requires
            !(el is HeadMarking) ==> previous_parsing_result_data is Some,
            ive_ok(*el),
        ensures
            el is HeadMarking ==> final(store)@ == old(store)@ && (r matches Ok(u) && u@
                == self.head_index_uuid@),
            !(el is HeadMarking) ==> (r matches Ok(u) ==> uuid_wf(u@)),
            el matches IndexVecElement::List(i) ==> (r matches Ok(u) ==> (
            previous_parsing_result_data matches Some(p) && list_elem(final(store)@, p@, i as nat)
                == Some(u@))),
            el matches IndexVecElement::TupleList(i, t, a) ==> (r matches Ok(u) ==> (
            previous_parsing_result_data matches Some(p) && list_elem(
                final(store)@,
                crate::tuple_list::tuple_backing_name(p@),
                tl_slot(i as nat, a as nat, t as nat),
            ) == Some(u@))),
            el matches IndexVecElement::Hashtable(key) ==> (previous_parsing_result_data
                matches Some(p) ==> ((ht_wf(old(store)@, p@) && no_colon(key@)) ==> (r
                matches Ok(u) ==> ht_get(final(store)@, p@, key@) == Some(u@) && ht_wf(
                final(store)@,
                p@,
            )))),
            agrees_except(
                old(store)@,
                final(store)@,
                establish_footprint(old(store)@, *el, previous_parsing_result_data),
            ),
    {
        match el {
            IndexVecElement::HeadMarking => {
                return Ok(self.head_index_uuid.clone());
            },
            _ => {},
        }
        let uuid = fresh_uuid_bytes();
        match el {
            IndexVecElement::Hashtable(key) => {
                let ghost m0 = store@;
                let ghost p = previous_parsing_result_data.unwrap()@;
                let h = match Hashtable::new(store, previous_parsing_result_data.unwrap()) {
                    Ok(h) => h,
                    Err(e) => {
                        return Err(e);
                    },
                };
                let ghost m_a = store@;
                proof {
                    // Creating the bucket list touches only its length
                    // entry, which sits inside the table's footprint and
                    // leaves every bucket slot as it stood.
                    crate::list::lemma_length_after_set_len(m0, ht_hashlist_name(p), 0);
                    assert(ht_key_footprint(m_a, p, key@) =~= ht_key_footprint(m0, p, key@));
                    assert(establish_footprint(
                        m0,
                        *el,
                        previous_parsing_result_data,
                    ).contains(list_len_key(ht_hashlist_name(p))));
                }
                let r1 = h.insert(store, key, &uuid);
                proof {
                    agrees_trans(
                        m0,
                        m_a,
                        store@,
                        ht_key_footprint(m_a, p, key@),
                        establish_footprint(m0, *el, previous_parsing_result_data),
                    );
                    if ht_wf(m0, p) && no_colon(key@) && r1 is Ok {
                        assert(list_exists(m0, ht_hashlist_name(p)));
                        assert(m_a == m0);
                    }
                }
                match r1 {
                    Ok(_) => Ok(uuid),
                    Err(e) => Err(e),
                }
            },
            IndexVecElement::List(index) => {
                let l = match ListDb::new(store, previous_parsing_result_data.unwrap()) {
                    Ok(l) => l,
                    Err(e) => {
                        return Err(e);
                    },
                };
                match l.length(store) {
                    Some(_) => {},
                    None => {
                        return Err("Failed to obtain List length".to_owned());
                    },
                }
                match l.safety_overwrite(store, *index, &uuid) {
                    Ok(_) => Ok(uuid),
                    Err(e) => Err(e),
                }
            },
            IndexVecElement::TupleList(index, tuple_index, len) => {
                let t = match TupleList::new(
                    store,
                    previous_parsing_result_data.unwrap(),
                    *len,
                ) {
                    Ok(t) => t,
                    Err(e) => {
                        return Err(e);
                    },
                };
                match t.list.length(store) {
                    Some(_) => {},
                    None => {
                        return Err("Failed to obtain List length".to_owned());
                    },
                }
                match t.overwrite_tuple_elements(store, *index, *tuple_index, &uuid) {
                    Ok(_) => Ok(uuid),
                    Err(e) => Err(e),
                }
            },
            IndexVecElement::HeadMarking => Ok(uuid),
        }
    }

    /// Materializes the leaf container named `index_uuid` in construct
    /// mode and pairs it with the step's selector.
    fn new_database_objects(
        &self,
        store: &mut Store,
        el: &IndexVecElement,
        index_uuid: Vec<u8>,
    ) -> (r: Result<ElementAnalysisResults, String>)
        ensures
            r matches Ok(ear) ==> ear.wf() && ive_eq(ear.1, *el) && (!(ear.1 is HeadMarking)
                ==> ear_cname(&ear) == index_uuid@),
            r is Ok && !(el is HeadMarking) ==> list_exists(
                final(store)@,
                step_bn(*el, index_uuid@),
            ),
            r is Ok && list_exists(old(store)@, step_bn(*el, index_uuid@)) ==> final(store)@
                == old(store)@,
            r is Ok && !(el is HeadMarking) && !list_exists(
                old(store)@,
                step_bn(*el, index_uuid@),
            ) ==> final(store)@ == list_set_len_post(old(store)@, step_bn(*el, index_uuid@), 0),
            el is HeadMarking ==> final(store)@ == old(store)@,
            agrees_except(
                old(store)@,
                final(store)@,
                set![list_len_key(step_bn(*el, index_uuid@))],
            ),
    {
        match el {
            IndexVecElement::Hashtable(key) => {
                match Hashtable::new(store, index_uuid) {
                    Ok(h) => Ok(
                        ElementAnalysisResults(
                            AnalysisElement::Hashtable(h),
                            IndexVecElement::Hashtable(key.clone()),
                        ),
                    ),
                    Err(e) => Err(e),
                }
            },
            IndexVecElement::List(index) => {
                match ListDb::new(store, index_uuid) {
                    Ok(l) => Ok(
                        ElementAnalysisResults(
                            AnalysisElement::List(l),
                            IndexVecElement::List(*index),
                        ),
                    ),
                    Err(e) => Err(e),
                }
            },
            IndexVecElement::TupleList(index, tuple_index, len) => {
                match TupleList::new(store, index_uuid, *len) {
                    Ok(t) => Ok(
                        ElementAnalysisResults(
                            AnalysisElement::TupleList(t),
                            IndexVecElement::TupleList(*index, *tuple_index, *len),
                        ),
                    ),
                    Err(e) => Err(e),
                }
            },
            IndexVecElement::HeadMarking => Ok(
                ElementAnalysisResults(
                    AnalysisElement::HeadMarking,
                    IndexVecElement::HeadMarking,
                ),
            ),
        }
    }

    /// Opens the leaf container named `index_uuid` without constructing
    /// anything, and pairs it with the step's selector.
    fn get_database_objects(
        &self,
        store: &Store,
        el: &IndexVecElement,
        index_uuid: Vec<u8>,
    ) -> (r: Option<ElementAnalysisResults>)
        ensures
            r matches Some(ear) ==> ear.wf() && ive_eq(ear.1, *el) && (!(ear.1 is HeadMarking)
                ==> ear_cname(&ear) == index_uuid@),
            r is Some && !(el is HeadMarking) ==> list_exists(
                store@,
                step_bn(*el, index_uuid@),
            ),
            !(el is HeadMarking) && !list_exists(store@, step_bn(*el, index_uuid@)) ==> r
                is None,
    {
        match el {
            IndexVecElement::Hashtable(key) => {
                match Hashtable::open(store, index_uuid) {
                    Some(h) => Some(
                        ElementAnalysisResults(
                            AnalysisElement::Hashtable(h),
                            IndexVecElement::Hashtable(key.clone()),
                        ),
                    ),
                    None => None,
                }
            },
            IndexVecElement::List(index) => {
                match ListDb::open(store, index_uuid) {
                    Some(l) => Some(
                        ElementAnalysisResults(
                            AnalysisElement::List(l),
                            IndexVecElement::List(*index),
                        ),
                    ),
                    None => None,
                }
            },
            IndexVecElement::TupleList(index, tuple_index, len) => {
                match TupleList::open(store, index_uuid, *len) {
                    Some(t) => Some(
                        ElementAnalysisResults(
                            AnalysisElement::TupleList(t),
                            IndexVecElement::TupleList(*index, *tuple_index, *len),
                        ),
                    ),
                    None => None,
                }
            },
            IndexVecElement::HeadMarking => Some(
                ElementAnalysisResults(
                    AnalysisElement::HeadMarking,
                    IndexVecElement::HeadMarking,
                ),
            ),
        }
    }

    /// Construct-mode resolution from step `head` onward: every step but
    /// the last writes a fresh identifier, the last materializes the
    /// leaf.
    fn resolve_new(
        &self,
        store: &mut Store,
        iv: &IndexVec,
        head: usize,
        index_uuid: Option<Vec<u8>>,
    ) -> (r: Option<ElementAnalysisResults>)
        requires
            head < iv@.len(),
            index_uuid is None ==> iv@[head as int] is HeadMarking,
            head + 1 == iv@.len() ==> index_uuid is Some,
            self.wf() ==> (index_uuid matches Some(u) ==> uuid_wf(u@)),
            forall|j: int| head <= j < iv@.len() ==> ive_ok(#[trigger] iv@[j]),
        ensures
            r matches Some(ear) ==> ear.wf() && ive_eq(ear.1, iv@[iv@.len() - 1]),
            self.wf() ==> (r matches Some(ear) ==> (!(ear.1 is HeadMarking) ==> uuid_wf(
                ear_cname(&ear),
            ))),
            agrees_except(
                old(store)@,
                final(store)@,
                Set::new(|k: Seq<u8>| container_key(k)),
            ),
            r matches Some(ear) ==> (!(ear.1 is HeadMarking) ==> ear_exists(
                final(store)@,
                &ear,
            )),
        decreases iv@.len() - head,
    {
        let ghost m0 = store@;
        let ghost all_container = Set::new(|k: Seq<u8>| container_key(k));
        if head < iv.len() - 1 {
            let r1 = self.establish_uuid_index(store, &iv[head], index_uuid);
            proof {
                // The step writes only container keys.
                let fp = establish_footprint(m0, iv@[head as int], index_uuid);
                assert forall|k: Seq<u8>| #[trigger] fp.contains(k) implies container_key(
                    k,
                ) by {
                    if index_uuid is Some {
                        let p = index_uuid.unwrap()@;
                        lemma_list_fp_container(p);
                        lemma_list_fp_container(tuple_backing_name(p));
                        match iv@[head as int] {
                            IndexVecElement::Hashtable(kk) => {
                                lemma_ht_fp_container(m0, p, kk@);
                            },
                            _ => {},
                        }
                    }
                }
                agrees_trans(m0, m0, store@, fp, all_container);
            }
            match r1 {
                Ok(u) => {
                    let ghost m_mid = store@;
                    let r = self.resolve_new(store, iv, head + 1, Some(u));
                    proof {
                        agrees_trans(m0, m_mid, store@, all_container, all_container);
                    }
                    r
                },
                Err(_) => None,
            }
        } else {
            // Terminal step: only the leaf container's length entry can
            // change hands here.
            let r2 = self.new_database_objects(store, &iv[head], index_uuid.unwrap());
            proof {
                let bn = step_bn(iv@[head as int], index_uuid.unwrap()@);
                lemma_list_fp_container(bn);
                assert(list_footprint(bn).contains(list_len_key(bn)));
                assert(container_key(list_len_key(bn)));
                agrees_trans(m0, m0, store@, set![list_len_key(bn)], all_container);
            }
            match r2 {
                Ok(ear) => {
                    proof {
                        if !(ear.1 is HeadMarking) {
                            assert(ear_exists(store@, &ear)) by {
                                assert(list_exists(
                                    store@,
                                    step_bn(iv@[head as int], index_uuid.unwrap()@),
                                ));
                            }
                        }
                    }
                    Some(ear)
                },
                Err(_) => None,
            }
        }
    }

    /// Open-mode resolution from step `head` onward: every step but the
    /// last reads the identifier previously stored, the last opens the
    /// leaf; resolution fails where an identifier is absent.
    fn resolve_open(
        &self,
        store: &Store,
        iv: &IndexVec,
        head: usize,
        index_uuid: Option<Vec<u8>>,
    ) -> (r: Option<ElementAnalysisResults>)
        requires
            head < iv@.len(),
            index_uuid is None ==> iv@[head as int] is HeadMarking,
            head + 1 == iv@.len() ==> index_uuid is Some,
            forall|j: int| head <= j < iv@.len() ==> ive_ok(#[trigger] iv@[j]),
        ensures
            r matches Some(ear) ==> ear.wf() && ive_eq(ear.1, iv@[iv@.len() - 1]),
            r matches Some(ear) ==> ((((head == 0 && index_uuid is None) || (head >= 1
                && index_uuid is Some && resolved_id(
                self.head_index_uuid@,
                store@,
                iv@,
                head - 1,
            ) == Some(index_uuid.unwrap()@))) && path_state_ok(
                self.head_index_uuid@,
                store@,
                iv@,
                iv@.len() - 2,
            )) ==> (!(iv@[iv@.len() - 1] is HeadMarking) ==> resolved_id(
                self.head_index_uuid@,
                store@,
                iv@,
                iv@.len() - 2,
            ) == Some(ear_cname(&ear)))),
        decreases iv@.len() - head,
    {
        if head < iv.len() - 1 {
            match self.analysis_element(store, &iv[head], index_uuid) {
                Some(u) => {
                    let r = self.resolve_open(store, iv, head + 1, Some(u));
                    proof {
                        let hu = self.head_index_uuid@;
                        let m = store@;
                        if r is Some && path_state_ok(hu, m, iv@, iv@.len() - 2) && ((head == 0
                            && index_uuid is None) || (head >= 1 && index_uuid is Some
                            && resolved_id(hu, m, iv@, head - 1) == Some(
                            index_uuid.unwrap()@,
                        ))) {
                            // This step's read extends the resolved chain.
                            if iv@[head as int] is HeadMarking {
                                assert(resolved_id(hu, m, iv@, head as int) == Some(hu));
                            } else {
                                assert(head >= 1);
                                assert(1 <= head <= iv@.len() - 2);
                                assert(resolved_id(hu, m, iv@, head as int) == step_read(
                                    m,
                                    index_uuid.unwrap()@,
                                    iv@[head as int],
                                ));
                            }
                            assert(resolved_id(hu, m, iv@, head as int) == Some(u@));
                        }
                    }
                    r
                },
                None => None,
            }
        } else {
            self.get_database_objects(store, &iv[head], index_uuid.unwrap())
        }
    }

    /// Resolves `iv` in construct mode, creating every level: each
    /// non-terminal step writes a fresh identifier link, the terminal
    /// step materializes the leaf. The call touches only container keys,
    /// and on success the leaf container exists under a generated
    /// identifier; what each step wrote is the per-step contract of
    /// `establish_uuid_index`.
    pub fn new(&self, store: &mut Store, iv: &IndexVec) -> (r: Option<ElementAnalysisResults>)
        requires
            iv@.len() >= 2,
            iv@[0] is HeadMarking,
            forall|j: int| 0 <= j < iv@.len() ==> ive_ok(#[trigger] iv@[j]),
        ensures
            r matches Some(ear) ==> ear.wf() && ive_ok(ear.1) && ive_eq(
                ear.1,
                iv@[iv@.len() - 1],
            ),
            self.wf() ==> (r matches Some(ear) ==> (!(ear.1 is HeadMarking) ==> uuid_wf(
                ear_cname(&ear),
            ))),
            agrees_except(
                old(store)@,
                final(store)@,
                Set::new(|k: Seq<u8>| container_key(k)),
            ),
            r matches Some(ear) ==> (!(ear.1 is HeadMarking) ==> ear_exists(
                final(store)@,
                &ear,
            )),
    {
        let r = self.resolve_new(store, iv, 0, None);
        proof {
            if r is Some {
                let ear = r.unwrap();
                assert(ive_eq(ear.1, iv@[iv@.len() - 1]));
                assert(ive_ok(iv@[iv@.len() - 1]));
            }
        }
        r
    }

    /// Resolves `iv` in open mode, creating nothing: on success the
    /// returned leaf is the one the identifier chain stored along the
    /// path yields, provided every hash-table level is well formed.
    pub fn open(&self, store: &Store, iv: &IndexVec) -> (r: Option<ElementAnalysisResults>)
        requires
            iv@.len() >= 2,
            iv@[0] is HeadMarking,
            forall|j: int| 0 <= j < iv@.len() ==> ive_ok(#[trigger] iv@[j]),
        ensures
            r matches Some(ear) ==> ear.wf() && ive_ok(ear.1) && ive_eq(
                ear.1,
                iv@[iv@.len() - 1],
            ),
            r matches Some(ear) ==> (path_state_ok(
                self.head_index_uuid@,
                store@,
                iv@,
                iv@.len() - 2,
            ) ==> (!(iv@[iv@.len() - 1] is HeadMarking) ==> resolved_id(
                self.head_index_uuid@,
                store@,
                iv@,
                iv@.len() - 2,
            ) == Some(ear_cname(&ear)))),
    {
        let r = self.resolve_open(store, iv, 0, None);
        proof {
            if r is Some {
                let ear = r.unwrap();
                assert(ive_eq(ear.1, iv@[iv@.len() - 1]));
                assert(ive_ok(iv@[iv@.len() - 1]));
            }
        }
        r
    }

    /// Opens `iv` and deletes the leaf value it addresses; intermediate
    /// identifier links stay in place, and nothing outside the container
    /// key space is touched.
    pub fn delete(&self, store: &mut Store, iv: &IndexVec) -> (r: Result<bool, String>)
        requires
            iv@.len() >= 2,
            iv@[0] is HeadMarking,
            forall|j: int| 0 <= j < iv@.len() ==> ive_ok(#[trigger] iv@[j]),
        ensures
            agrees_except(
                old(store)@,
                final(store)@,
                Set::new(|k: Seq<u8>| container_key(k)),
            ),
            r is Ok && !(iv@[iv@.len() - 1] is HeadMarking) && path_state_ok(
                self.head_index_uuid@,
                old(store)@,
                iv@,
                iv@.len() - 2,
            ) ==> (resolved_id(
                self.head_index_uuid@,
                old(store)@,
                iv@,
                iv@.len() - 2,
            ) matches Some(nm) ==> (step_state_ok(old(store)@, nm, iv@[iv@.len() - 1])
                ==> step_read(final(store)@, nm, iv@[iv@.len() - 1]) is None)),
    {
        let ghost m0 = store@;
        match self.open(store, iv) {
            Some(ear) => {
                let r = ear.delete(store);
                proof {
                    // The leaf's footprint lies inside the container key
                    // space, and the resolved leaf is the one the handle
                    // addresses.
                    let all_container = Set::new(|k: Seq<u8>| container_key(k));
                    let fp = ear.footprint(m0);
                    assert forall|k: Seq<u8>| #[trigger] fp.contains(k) implies container_key(
                        k,
                    ) by {
                        match (&ear.0, &ear.1) {
                            (
                                AnalysisElement::Hashtable(obj),
                                IndexVecElement::Hashtable(kk),
                            ) => {
                                lemma_ht_fp_container(m0, obj.name@, kk@);
                            },
                            (AnalysisElement::List(obj), IndexVecElement::List(_)) => {
                                lemma_list_fp_container(obj.name@);
                            },
                            (
                                AnalysisElement::TupleList(obj),
                                IndexVecElement::TupleList(..),
                            ) => {
                                lemma_list_fp_container(obj.bn());
                            },
                            _ => {},
                        }
                    }
                    agrees_trans(m0, m0, store@, fp, all_container);
                    let last = iv@[iv@.len() - 1];
                    if r is Ok && !(last is HeadMarking) && path_state_ok(
                        self.head_index_uuid@,
                        m0,
                        iv@,
                        iv@.len() - 2,
                    ) {
                        let nm_o = resolved_id(self.head_index_uuid@, m0, iv@, iv@.len() - 2);
                        if nm_o is Some {
                            let nm = nm_o.unwrap();
                            assert(ear_cname(&ear) == nm);
                            if step_state_ok(m0, nm, last) {
                                assert(ear.state_ok(m0));
                                assert(ear.spec_read(store@) is None);
                                assert(step_read(store@, nm, last) == ear.spec_read(store@));
                            }
                        }
                    }
                }
                r
            },
            None => Err("Incorrect ElementAnalysisResults (EAR) object format".to_owned()),
        }
    }
}

} // verus!
