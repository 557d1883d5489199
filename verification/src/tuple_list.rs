//! Fixed-arity tuple lists: a grouping of `len` consecutive slots of a
//! backing list into one logical tuple.
//!
//! A tuple list named `n` with arity `a` is backed by the list named
//! `Tuple:{n}`; logical tuple `i` occupies underlying indices
//! `[i*a, i*a + a)`, and the logical length is the underlying length
//! divided by `a` (floor).
use vstd::prelude::*;
use crate::bytes::append_bytes;
use crate::list::{
    join_errors,
    list_footprint,
    list_delete_post,
    list_elem,
    list_elem_key,
    list_exists,
    list_len_key,
    list_length,
    list_overwrite_post,
    list_safety_overwrite_post,
    list_set_len_post,
    lemma_length_after_remove_elem,
    lemma_length_after_set_elem,
    lemma_length_after_set_len,
    ListDb,
};
use crate::store::{agrees_except, agrees_trans, Store};

verus! {

/// The name of the backing list of the tuple list named `name`.
pub open spec fn tuple_backing_name(name: Seq<u8>) -> Seq<u8> {
    seq![84u8, 117u8, 112u8, 108u8, 101u8, 58u8] + name
}

/// The logical length the store records: underlying length over arity.
pub open spec fn tl_length(m: Map<Seq<u8>, Seq<u8>>, name: Seq<u8>, arity: nat) -> Option<nat> {
    match list_length(m, tuple_backing_name(name)) {
        Some(l) => Some(l / arity),
        None => None,
    }
}

/// The underlying index of field `j` of tuple `i`.
pub open spec fn tl_slot(i: nat, arity: nat, j: nat) -> nat {
    i * arity + j
}

/// The store after the fields `vs` have been written in order starting at
/// underlying index `base` with plain overwrites.
pub open spec fn tl_overwrite_post(
    m: Map<Seq<u8>, Seq<u8>>,
    bn: Seq<u8>,
    base: nat,
    vs: Seq<Seq<u8>>,
) -> Map<Seq<u8>, Seq<u8>>
    decreases vs.len(),
{
    if vs.len() == 0 {
        m
    } else {
        list_overwrite_post(
            tl_overwrite_post(m, bn, base, vs.drop_last()),
            bn,
            (base + vs.len() - 1) as nat,
            vs.last(),
        )
    }
}

/// The store after the fields `vs` have been written in order starting at
/// underlying index `base` with safety overwrites (each may extend the
/// underlying length).
pub open spec fn tl_safety_post(
    m: Map<Seq<u8>, Seq<u8>>,
    bn: Seq<u8>,
    base: nat,
    vs: Seq<Seq<u8>>,
) -> Map<Seq<u8>, Seq<u8>>
    decreases vs.len(),
{
    if vs.len() == 0 {
        m
    } else {
        let prev = tl_safety_post(m, bn, base, vs.drop_last());
        list_safety_overwrite_post(
            prev,
            bn,
            list_length(prev, bn).unwrap(),
            (base + vs.len() - 1) as nat,
            vs.last(),
        )
    }
}

/// The store after the `count` underlying slots starting at `base` have
/// been deleted in ascending order.
pub open spec fn tl_delete_post(
    m: Map<Seq<u8>, Seq<u8>>,
    bn: Seq<u8>,
    base: nat,
    count: nat,
) -> Map<Seq<u8>, Seq<u8>>
    decreases count,
{
    if count == 0 {
        m
    } else {
        list_delete_post(tl_delete_post(m, bn, base, (count - 1) as nat), bn, (base + count
            - 1) as nat)
    }
}

/// Plain overwrites of a run of slots: the recorded length is untouched,
/// the written slots hold the new fields, and everything else stands.
pub proof fn lemma_tl_overwrite_post_props(
    m: Map<Seq<u8>, Seq<u8>>,
    bn: Seq<u8>,
    base: nat,
    vs: Seq<Seq<u8>>,
)
    ensures
        list_length(tl_overwrite_post(m, bn, base, vs), bn) == list_length(m, bn),
        forall|j: nat|
            j < vs.len() ==> #[trigger] list_elem(tl_overwrite_post(m, bn, base, vs), bn, base
                + j) == Some(vs[j as int]),
        forall|i: nat|
            (i < base || i >= base + vs.len()) ==> #[trigger] list_elem(
                tl_overwrite_post(m, bn, base, vs),
                bn,
                i,
            ) == list_elem(m, bn, i),
        agrees_except(
            m,
            tl_overwrite_post(m, bn, base, vs),
            Set::new(
                |k: Seq<u8>|
                    exists|j: nat|
                        j < vs.len() && k == #[trigger] list_elem_key(bn, (base + j) as nat),
            ),
        ),
    decreases vs.len(),
{
    if vs.len() > 0 {
        lemma_tl_overwrite_post_props(m, bn, base, vs.drop_last());
        let prev = tl_overwrite_post(m, bn, base, vs.drop_last());
        let last_i = (base + vs.len() - 1) as nat;
        lemma_length_after_set_elem(prev, bn, last_i, vs.last());
        assert forall|j: nat|
            j < vs.len() implies #[trigger] list_elem(tl_overwrite_post(m, bn, base, vs), bn, base
            + j) == Some(vs[j as int]) by {
            if j < vs.len() - 1 {
                assert(list_elem(prev, bn, base + j) == Some(vs.drop_last()[j as int]));
            }
        }
    }
}


/// Fields of the tuple at `base` past position `k` read the same in the
/// two stores: a failed tuple write never reaches past its failure point.
pub open spec fn tl_suffix_untouched(
    m0: Map<Seq<u8>, Seq<u8>>,
    mf: Map<Seq<u8>, Seq<u8>>,
    bn: Seq<u8>,
    base: nat,
    k: nat,
    arity: nat,
) -> bool {
    forall|j: nat|
        k < j < arity ==> #[trigger] list_elem(mf, bn, base + j) == list_elem(m0, bn, base + j)
}

/// The keys an operation on tuple slots `[base, base + count)` may touch:
/// those slots and the backing length entry.
pub open spec fn tl_footprint(bn: Seq<u8>, base: nat, count: nat) -> Set<Seq<u8>> {
    Set::new(
        |k: Seq<u8>|
            k == list_len_key(bn) || (exists|j: nat|
                j < count && k == #[trigger] list_elem_key(bn, (base + j) as nat)),
    )
}

/// Safety overwrites of a run of slots: every written slot holds its new
/// field, other slots stand, the recorded length stays readable and ends
/// at the larger of the old length and `base + vs.len()`.
pub proof fn lemma_tl_safety_post_props(
    m: Map<Seq<u8>, Seq<u8>>,
    bn: Seq<u8>,
    base: nat,
    vs: Seq<Seq<u8>>,
)
    requires
        list_length(m, bn) is Some,
        base + vs.len() <= usize::MAX,
    ensures
        list_length(tl_safety_post(m, bn, base, vs), bn) is Some,
        vs.len() > 0 ==> list_length(tl_safety_post(m, bn, base, vs), bn) == Some(
            if list_length(m, bn).unwrap() >= base + vs.len() {
                list_length(m, bn).unwrap()
            } else {
                (base + vs.len()) as nat
            },
        ),
        forall|j: nat|
            j < vs.len() ==> #[trigger] list_elem(tl_safety_post(m, bn, base, vs), bn, base + j)
                == Some(vs[j as int]),
        forall|i: nat|
            (i < base || i >= base + vs.len()) ==> #[trigger] list_elem(
                tl_safety_post(m, bn, base, vs),
                bn,
                i,
            ) == list_elem(m, bn, i),
        agrees_except(m, tl_safety_post(m, bn, base, vs), tl_footprint(bn, base, vs.len())),
    decreases vs.len(),
{
    if vs.len() > 0 {
        lemma_tl_safety_post_props(m, bn, base, vs.drop_last());
        let prev = tl_safety_post(m, bn, base, vs.drop_last());
        let last_i = (base + vs.len() - 1) as nat;
        let lp = list_length(prev, bn).unwrap();
        crate::list::lemma_safety_overwrite_access_law(prev, bn, lp, last_i, vs.last());
        if last_i < lp {
            lemma_length_after_set_elem(prev, bn, last_i, vs.last());
        } else {
            lemma_length_after_set_len(prev, bn, (last_i + 1) as nat);
            lemma_length_after_set_elem(
                list_set_len_post(prev, bn, (last_i + 1) as nat),
                bn,
                last_i,
                vs.last(),
            );
        }
        let cur = tl_safety_post(m, bn, base, vs);
        assert forall|j: nat|
            j < vs.len() implies #[trigger] list_elem(cur, bn, base + j) == Some(
            vs[j as int],
        ) by {
            if j < vs.len() - 1 {
                assert(list_elem(prev, bn, base + j) == Some(vs.drop_last()[j as int]));
            }
        }
    }
}


/// Law: a tuple overwrite that completes successfully never changes the
/// backing length, so a length that is an exact multiple of the arity
/// stays one.
pub proof fn lemma_tl_overwrite_arity_law(
    m: Map<Seq<u8>, Seq<u8>>,
    bn: Seq<u8>,
    base: nat,
    vs: Seq<Seq<u8>>,
)
    ensures
        list_length(tl_overwrite_post(m, bn, base, vs), bn) == list_length(m, bn),
{
    lemma_tl_overwrite_post_props(m, bn, base, vs);
}

/// Law: a successful append of a full tuple takes the backing length from
/// `l` to `l + arity`, so an exact multiple of the arity stays one.
pub proof fn lemma_tl_append_arity_law(l: nat, arity: nat)
    requires
        arity > 0,
        l % arity == 0,
    ensures
        (l + arity) % arity == 0,
{
    assert((l + arity) % arity == 0) by (nonlinear_arith)
        requires
            arity > 0,
            l % arity == 0,
    ;
}

/// Law: deleting tuple `i` of an arity-2 tuple list (its two slots in
/// ascending order) keeps the backing length a multiple of two: deleting
/// the last tuple shrinks the length to the previous tuple boundary, and
/// deleting any other tuple leaves the length unchanged; both slots read
/// as absent afterwards.
pub proof fn lemma_tl_delete_arity_two_law(m: Map<Seq<u8>, Seq<u8>>, bn: Seq<u8>, i: nat)
    requires
        list_length(m, bn) is Some,
        list_length(m, bn).unwrap() % 2 == 0,
        (i + 1) * 2 <= list_length(m, bn).unwrap(),
    ensures
        list_length(tl_delete_post(m, bn, 2 * i, 2), bn) == Some(
            if (i + 1) * 2 == list_length(m, bn).unwrap() {
                (list_length(m, bn).unwrap() - 2) as nat
            } else {
                list_length(m, bn).unwrap()
            },
        ),
        list_elem(tl_delete_post(m, bn, 2 * i, 2), bn, 2 * i) is None,
        list_elem(tl_delete_post(m, bn, 2 * i, 2), bn, 2 * i + 1) is None,
{
    let l = list_length(m, bn).unwrap();
    let s0 = (2 * i) as nat;
    let s1 = (2 * i + 1) as nat;
    assert(tl_delete_post(m, bn, s0, 0) == m);
    assert(tl_delete_post(m, bn, s0, 1) == list_delete_post(m, bn, s0));
    assert(tl_delete_post(m, bn, s0, 2) == list_delete_post(
        list_delete_post(m, bn, s0),
        bn,
        s1,
    ));
    let m1 = list_delete_post(m, bn, s0);
    // The first slot is even and the length is even, so the tail rule
    // cannot fire on it.
    assert(list_length(m, bn) != Some((s0 + 1) as nat));
    assert(m1 == m.remove(list_elem_key(bn, s0)));
    lemma_length_after_remove_elem(m, bn, s0);
    let m2 = list_delete_post(m1, bn, s1);
    if (i + 1) * 2 == l {
        assert(list_length(m1, bn) == Some((s1 + 1) as nat));
        lemma_length_after_set_len(m1, bn, (s1 - 1) as nat);
        lemma_length_after_remove_elem(list_set_len_post(m1, bn, (s1 - 1) as nat), bn, s1);
        assert(list_elem(list_set_len_post(m1, bn, (s1 - 1) as nat), bn, s0) == list_elem(
            m1,
            bn,
            s0,
        )) by {
            lemma_length_after_set_len(m1, bn, (s1 - 1) as nat);
        }
    } else {
        assert(list_length(m1, bn) != Some((s1 + 1) as nat));
        lemma_length_after_remove_elem(m1, bn, s1);
    }
}

/// A fixed-arity tuple list; the handle carries the names and the arity,
/// and every operation takes the store it acts on.
pub struct TupleList {
    pub list: ListDb,
    pub name: Vec<u8>,
    pub len: u16,
}

impl TupleList {
    /// The handle is consistent: the backing list is the one derived from
    /// the tuple list's own name.
    pub open spec fn wf(&self) -> bool {
        self.list.name@ == tuple_backing_name(self.name@)
    }

    /// The backing list's name.
    pub open spec fn bn(&self) -> Seq<u8> {
        tuple_backing_name(self.name@)
    }

    /// The arity as a mathematical number.
    pub open spec fn arity(&self) -> nat {
        self.len as nat
    }

    /// Builds the backing list name of `name`.
    fn make_backing_name(name: &[u8]) -> (r: Vec<u8>)
        ensures
            r@ == tuple_backing_name(name@),
    {
        let mut r: Vec<u8> = Vec::new();
        r.push(84);
        r.push(117);
        r.push(112);
        r.push(108);
        r.push(101);
        r.push(58);
        proof {
            assert(r@ =~= seq![84u8, 117u8, 112u8, 108u8, 101u8, 58u8]);
        }
        append_bytes(&mut r, name);
        r
    }

    /// Opens the tuple list named `name`, creating the backing list when
    /// none exists.
    pub fn new(store: &mut Store, name: Vec<u8>, len: u16) -> (r: Result<TupleList, String>)
        ensures
            r matches Ok(t) ==> t.wf() && t.name@ == name@ && t.len == len,
            r is Ok && list_exists(old(store)@, tuple_backing_name(name@)) ==> final(store)@
                == old(store)@,
            r is Ok && !list_exists(old(store)@, tuple_backing_name(name@)) ==> final(store)@
                == list_set_len_post(old(store)@, tuple_backing_name(name@), 0),
            r is Ok ==> list_exists(final(store)@, tuple_backing_name(name@)),
            agrees_except(
                old(store)@,
                final(store)@,
                set![list_len_key(tuple_backing_name(name@))],
            ),
    {
        let bn = Self::make_backing_name(name.as_slice());
        match ListDb::new(store, bn) {
            Ok(list) => Ok(TupleList { list, name, len }),
            Err(e) => Err("Failed to create List : ".to_owned().concat(e.as_str())),
        }
    }

    /// Opens the tuple list named `name` if its backing list exists.
    pub fn open(store: &Store, name: Vec<u8>, len: u16) -> (r: Option<TupleList>)
        ensures
            r matches Some(t) ==> t.wf() && t.name@ == name@ && t.len == len && list_exists(
                store@,
                tuple_backing_name(name@),
            ),
            !list_exists(store@, tuple_backing_name(name@)) ==> r is None,
    {
        let bn = Self::make_backing_name(name.as_slice());
        match ListDb::open(store, bn) {
            Some(list) => Some(TupleList { list, name, len }),
            None => None,
        }
    }

    /// The underlying index of field `tuple_index` of tuple `index`.
    pub fn get_list_index(&self, index: usize, tuple_index: u16) -> (r: usize)
        requires
            (index as nat) * self.arity() + (tuple_index as nat) <= usize::MAX,
        ensures
            r as nat == tl_slot(index as nat, self.arity(), tuple_index as nat),
    {
        proof {
            assert((index as nat) * self.arity() >= 0) by (nonlinear_arith);
        }
        index * (self.len as usize) + (tuple_index as usize)
    }

    /// The store keys of all fields of tuple `index`.
    pub fn get_key(&self, index: usize) -> (r: Vec<Vec<u8>>)
        requires
            (index as nat) * self.arity() + self.arity() <= usize::MAX,
        ensures
            r@.len() == self.arity(),
            forall|j: nat|
                j < self.arity() ==> #[trigger] r@[j as int]@ == list_elem_key(
                    self.list.name@,
                    tl_slot(index as nat, self.arity(), j),
                ),
    {
        let base = index * (self.len as usize);
        proof {
            assert((index as nat) * self.arity() >= 0) by (nonlinear_arith);
        }
        let mut r: Vec<Vec<u8>> = Vec::new();
        let mut j: usize = 0;
        while j < self.len as usize
            invariant
                j <= self.len as usize,
                base as nat == (index as nat) * self.arity(),
                base + self.len as usize <= usize::MAX,
                r@.len() == j,
                forall|x: nat|
                    x < j ==> #[trigger] r@[x as int]@ == list_elem_key(
                        self.list.name@,
                        tl_slot(index as nat, self.arity(), x),
                    ),
            decreases self.len as usize - j,
        {
            let k = self.list.get_key(base + j);
            r.push(k);
            j = j + 1;
        }
        r
    }

    /// The logical length: underlying length over arity; `None` when the
    /// backing list's length is unreadable.
    pub fn length(&self, store: &Store) -> (r: Option<usize>)
        requires
            self.wf(),
            self.len != 0,
        ensures
            r matches Some(l) ==> tl_length(store@, self.name@, self.arity()) == Some(l as nat),
            tl_length(store@, self.name@, self.arity()) is None ==> r is None,
    {
        match self.list.length(store) {
            Some(t) => Some(t / (self.len as usize)),
            None => None,
        }
    }

    /// Reads every field of tuple `index`; `None` only when the arity is
    /// zero, otherwise a collection of per-field reads, absent fields
    /// included.
    pub fn access(&self, store: &Store, index: usize) -> (r: Option<Vec<Option<Vec<u8>>>>)
        requires
            self.wf(),
            (index as nat) * self.arity() + self.arity() <= usize::MAX,
        ensures
            self.len == 0 <==> r is None,
            r matches Some(v) ==> v@.len() == self.arity(),
            r matches Some(v) ==> forall|j: nat|
                j < self.arity() ==> {
                    &&& (#[trigger] v@[j as int] matches Some(b) ==> list_elem(
                        store@,
                        self.bn(),
                        tl_slot(index as nat, self.arity(), j),
                    ) == Some(b@))
                    &&& (list_elem(store@, self.bn(), tl_slot(index as nat, self.arity(), j))
                        is None ==> v@[j as int] is None)
                },
    {
        let base = index * (self.len as usize);
        proof {
            assert((index as nat) * self.arity() >= 0) by (nonlinear_arith);
        }
        let mut ret: Vec<Option<Vec<u8>>> = Vec::new();
        let mut j: usize = 0;
        while j < self.len as usize
            invariant
                self.wf(),
                j <= self.len as usize,
                base as nat == (index as nat) * self.arity(),
                base + self.len as usize <= usize::MAX,
                ret@.len() == j,
                forall|x: nat|
                    x < j ==> {
                        &&& (#[trigger] ret@[x as int] matches Some(b) ==> list_elem(
                            store@,
                            self.bn(),
                            tl_slot(index as nat, self.arity(), x),
                        ) == Some(b@))
                        &&& (list_elem(store@, self.bn(), tl_slot(index as nat, self.arity(), x))
                            is None ==> ret@[x as int] is None)
                    },
            decreases self.len as usize - j,
        {
            ret.push(self.list.access(store, base + j));
            j = j + 1;
        }
        if ret.len() == 0 {
            None
        } else {
            Some(ret)
        }
    }

    /// Reads one field of tuple `index`.
    pub fn access_tuple_elements(&self, store: &Store, index: usize, tuple_index: u16) -> (r:
        Option<Vec<u8>>)
        requires
            self.wf(),
            (index as nat) * self.arity() + (tuple_index as nat) <= usize::MAX,
        ensures
            r matches Some(v) ==> list_elem(
                store@,
                self.bn(),
                tl_slot(index as nat, self.arity(), tuple_index as nat),
            ) == Some(v@),
            list_elem(store@, self.bn(), tl_slot(index as nat, self.arity(), tuple_index as nat))
                is None ==> r is None,
    {
        let gi = self.get_list_index(index, tuple_index);
        self.list.access(store, gi)
    }

    /// Reads one field of tuple `index`, distinguishing a truly absent
    /// entry from a failed store read.
    pub fn access_elem_checked(&self, store: &Store, index: usize, tuple_index: u16) -> (r:
        Result<Option<Vec<u8>>, String>)
        requires
            self.wf(),
            (index as nat) * self.arity() + (tuple_index as nat) <= usize::MAX,
        ensures
            r matches Ok(Some(v)) ==> list_elem(
                store@,
                self.bn(),
                tl_slot(index as nat, self.arity(), tuple_index as nat),
            ) == Some(v@),
            r matches Ok(None) ==> list_elem(
                store@,
                self.bn(),
                tl_slot(index as nat, self.arity(), tuple_index as nat),
            ) is None,
    {
        let gi = self.get_list_index(index, tuple_index);
        self.list.access_checked(store, gi)
    }

    /// Deletes one field of tuple `index` through the backing list's
    /// delete, with its tail-only length rule.
    pub fn delete_tuple_elements(&self, store: &mut Store, index: usize, tuple_index: u16) -> (r:
        Result<bool, String>)
        requires
            self.wf(),
            (index as nat) * self.arity() + (tuple_index as nat) <= usize::MAX,
            tl_slot(index as nat, self.arity(), tuple_index as nat) != 0 ==> list_length(
                old(store)@,
                self.bn(),
            ) is Some,
        ensures
            r is Ok ==> final(store)@ == list_delete_post(
                old(store)@,
                self.bn(),
                tl_slot(index as nat, self.arity(), tuple_index as nat),
            ) || final(store)@ == old(store)@.remove(
                list_elem_key(self.bn(), tl_slot(index as nat, self.arity(), tuple_index as nat)),
            ),
            r is Ok ==> list_elem(
                final(store)@,
                self.bn(),
                tl_slot(index as nat, self.arity(), tuple_index as nat),
            ) is None,
            agrees_except(
                old(store)@,
                final(store)@,
                set![
                    list_elem_key(self.bn(), tl_slot(index as nat, self.arity(), tuple_index as nat)),
                    list_len_key(self.bn()),
                ],
            ),
            list_length(old(store)@, self.bn()) is Some ==> list_length(
                final(store)@,
                self.bn(),
            ) is Some,
    {
        let gi = self.get_list_index(index, tuple_index);
        self.list.delete(store, gi)
    }

    /// Overwrites one field of tuple `index`; the bounds check here
    /// accepts `tuple_index == arity`, leaving the backing list's own
    /// bound to reject such a write. A failed write triggers a
    /// compensating field delete.
    pub fn overwrite_tuple_elements(
        &self,
        store: &mut Store,
        index: usize,
        tuple_index: u16,
        value: &Vec<u8>,
    ) -> (r: Result<bool, String>)
        requires
            self.wf(),
            (index as nat) * self.arity() + (tuple_index as nat) <= usize::MAX,
            list_length(old(store)@, self.bn()) is Some,
        ensures
            tuple_index > self.len ==> r is Err && final(store)@ == old(store)@,
            r is Ok ==> tl_slot(index as nat, self.arity(), tuple_index as nat) < list_length(
                old(store)@,
                self.bn(),
            ).unwrap() && final(store)@ == list_overwrite_post(
                old(store)@,
                self.bn(),
                tl_slot(index as nat, self.arity(), tuple_index as nat),
                value@,
            ),
            r is Ok ==> list_elem(
                final(store)@,
                self.bn(),
                tl_slot(index as nat, self.arity(), tuple_index as nat),
            ) == Some(value@) && list_length(final(store)@, self.bn()) == list_length(
                old(store)@,
                self.bn(),
            ),
            agrees_except(
                old(store)@,
                final(store)@,
                set![
                    list_elem_key(self.bn(), tl_slot(index as nat, self.arity(), tuple_index as nat)),
                    list_len_key(self.bn()),
                ],
            ),
            list_length(final(store)@, self.bn()) is Some,
    {
        if tuple_index > self.len {
            return Err("Value length error".to_owned());
        }
        let gi = self.get_list_index(index, tuple_index);
        match self.list.overwrite(store, gi, value) {
            Ok(_) => Ok(true),
            Err(e) => {
                match self.delete_tuple_elements(store, index, tuple_index) {
                    Ok(_) => Err(e),
                    Err(e1) => Err(join_errors(e, e1)),
                }
            },
        }
    }

    /// Overwrites one field of tuple `index` whatever the backing length,
    /// extending it as needed; the same off-by-one bounds check as
    /// `overwrite_tuple_elements`.
    pub fn safety_overwrite_tuple_elements(
        &self,
        store: &mut Store,
        index: usize,
        tuple_index: u16,
        value: &Vec<u8>,
    ) -> (r: Result<bool, String>)
        requires
            self.wf(),
            (index as nat) * self.arity() + (tuple_index as nat) < usize::MAX,
            list_length(old(store)@, self.bn()) is Some,
        ensures
            tuple_index > self.len ==> r is Err && final(store)@ == old(store)@,
            r is Ok ==> final(store)@ == list_safety_overwrite_post(
                old(store)@,
                self.bn(),
                list_length(old(store)@, self.bn()).unwrap(),
                tl_slot(index as nat, self.arity(), tuple_index as nat),
                value@,
            ),
            r is Ok ==> list_elem(
                final(store)@,
                self.bn(),
                tl_slot(index as nat, self.arity(), tuple_index as nat),
            ) == Some(value@),
            agrees_except(
                old(store)@,
                final(store)@,
                set![
                    list_elem_key(self.bn(), tl_slot(index as nat, self.arity(), tuple_index as nat)),
                    list_len_key(self.bn()),
                ],
            ),
            list_length(final(store)@, self.bn()) is Some,
    {
        if tuple_index > self.len {
            return Err("Value length error".to_owned());
        }
        let gi = self.get_list_index(index, tuple_index);
        match self.list.safety_overwrite(store, gi, value) {
            Ok(_) => Ok(true),
            Err(e) => {
                match self.delete_tuple_elements(store, index, tuple_index) {
                    Ok(_) => Err(e),
                    Err(e1) => Err(join_errors(e, e1)),
                }
            },
        }
    }

    /// Overwrites every field of tuple `index` in order; `value` must have
    /// exactly `arity` fields. When the `k`-th field write fails, fields
    /// `0..k` of this tuple are deleted as compensation and the error is
    /// surfaced.
    pub fn overwrite(&self, store: &mut Store, index: usize, value: &Vec<Vec<u8>>) -> (r: Result<
        bool,
        String,
    >)
        requires
            self.wf(),
            (index as nat) * self.arity() + self.arity() <= usize::MAX,
            list_length(old(store)@, self.bn()) is Some,
        ensures
            value@.len() != self.arity() ==> r is Err && final(store)@ == old(store)@,
            r is Ok ==> value@.len() == self.arity() && final(store)@ == tl_overwrite_post(
                old(store)@,
                self.bn(),
                (index as nat) * self.arity(),
                value.deep_view(),
            ),
            r is Ok ==> list_length(final(store)@, self.bn()) == list_length(
                old(store)@,
                self.bn(),
            ) && forall|j: nat|
                j < self.arity() ==> #[trigger] list_elem(
                    final(store)@,
                    self.bn(),
                    tl_slot(index as nat, self.arity(), j),
                ) == Some(value.deep_view()[j as int]),
            r is Err && value@.len() == self.arity() ==> (exists|k: nat|
                k < self.arity() && #[trigger] tl_suffix_untouched(
                    old(store)@,
                    final(store)@,
                    self.bn(),
                    (index as nat) * self.arity(),
                    k,
                    self.arity(),
                )),
            agrees_except(
                old(store)@,
                final(store)@,
                tl_footprint(self.bn(), (index as nat) * self.arity(), self.arity()),
            ),
            list_length(final(store)@, self.bn()) is Some,
    {
        if value.len() != self.len as usize {
            return Err("Value length error".to_owned());
        }
        let base = index * (self.len as usize);
        proof {
            assert((index as nat) * self.arity() >= 0) by (nonlinear_arith);
        }
        let ghost m0 = store@;
        let ghost vs = value.deep_view();
        let ghost bn = self.bn();
        let ghost fp = tl_footprint(bn, base as nat, self.arity());
        let mut i: usize = 0;
        while i < value.len()
            invariant
                self.wf(),
                value@.len() == self.arity(),
                vs == value.deep_view(),
                vs.len() == self.arity(),
                bn == self.bn(),
                fp == tl_footprint(bn, base as nat, self.arity()),
                base as nat == (index as nat) * self.arity(),
                base + value@.len() <= usize::MAX,
                i <= value@.len(),
                store@ == tl_overwrite_post(m0, bn, base as nat, vs.take(i as int)),
                m0 == old(store)@,
                list_length(m0, bn) is Some,
                list_length(store@, bn) is Some,
            decreases value@.len() - i,
        {
            let ghost m_before = store@;
            let r1 = self.list.overwrite(store, base + i, &value[i]);
            match r1 {
                Ok(_) => {
                    proof {
                        assert(vs.take(i as int + 1).drop_last() =~= vs.take(i as int));
                        assert(vs.take(i as int + 1).last() == vs[i as int]);
                        assert(vs[i as int] == value@[i as int]@);
                    }
                },
                Err(e) => {
                    proof {
                        lemma_tl_overwrite_post_props(m0, bn, base as nat, vs.take(i as int));
                        assert(agrees_except(m0, m_before, fp)) by {
                            assert forall|k: Seq<u8>| !fp.contains(k) implies (
                                m0.contains_key(k) <==> m_before.contains_key(k)) && (
                            m0.contains_key(k) ==> m0[k] == m_before[k]) by {
                                assert(!Set::new(
                                    |k2: Seq<u8>|
                                        exists|j: nat|
                                            j < vs.take(i as int).len() && k2
                                                == #[trigger] list_elem_key(
                                                bn,
                                                (base + j) as nat,
                                            ),
                                ).contains(k));
                            }
                        }
                        assert(agrees_except(m0, store@, fp)) by {
                            agrees_trans(
                                m0,
                                m_before,
                                store@,
                                set![
                                    list_elem_key(bn, (base + i) as nat),
                                    list_len_key(bn),
                                ],
                                fp,
                            );
                        }
                        // Fields past the failure point were never
                        // written and the cleanup below stays below it.
                        assert forall|j: nat|
                            (i as nat) < j && j < self.arity() implies #[trigger] list_elem(
                            store@,
                            bn,
                            base as nat + j,
                        ) == list_elem(m0, bn, base as nat + j) by {
                            assert(list_elem(m_before, bn, base as nat + j) == list_elem(
                                m0,
                                bn,
                                base as nat + j,
                            ));
                            crate::list::lemma_list_keys_distinct(bn, (base as nat + j) as nat);
                            if list_elem_key(bn, (base + j) as nat) == list_elem_key(
                                bn,
                                (base + i) as nat,
                            ) {
                                crate::list::lemma_elem_keys_injective(
                                    bn,
                                    (base + j) as nat,
                                    (base + i) as nat,
                                );
                            }
                        }
                    }
                    let mut comp_err: Option<String> = None;
                    let mut jj: usize = 0;
                    while jj < i
                        invariant
                            self.wf(),
                            bn == self.bn(),
                            fp == tl_footprint(bn, base as nat, self.arity()),
                            jj <= i,
                            i < self.arity(),
                            base as nat == (index as nat) * self.arity(),
                            base + self.arity() <= usize::MAX,
                            list_length(store@, bn) is Some,
                            m0 == old(store)@,
                            agrees_except(m0, store@, fp),
                            forall|j: nat|
                                (i as nat) < j && j < self.arity() ==> #[trigger] list_elem(
                                    store@,
                                    bn,
                                    base as nat + j,
                                ) == list_elem(m0, bn, base as nat + j),
                        decreases i - jj,
                    {
                        let ghost m_b = store@;
                        match self.list.delete(store, base + jj) {
                            Ok(_) => {},
                            Err(e1) => {
                                if comp_err.is_none() {
                                    comp_err = Some(e1);
                                }
                            },
                        }
                        proof {
                            agrees_trans(
                                m0,
                                m_b,
                                store@,
                                set![
                                    list_elem_key(bn, (base + jj) as nat),
                                    list_len_key(bn),
                                ],
                                fp,
                            );
                        }
                        jj = jj + 1;
                    }
                    proof {
                        assert(tl_suffix_untouched(
                            m0,
                            store@,
                            bn,
                            base as nat,
                            i as nat,
                            self.arity(),
                        ));
                    }
                    return match comp_err {
                        None => Err(e),
                        Some(e1) => Err(join_errors(e, e1)),
                    };
                },
            }
            i = i + 1;
        }
        proof {
            assert(vs.take(vs.len() as int) =~= vs);
            lemma_tl_overwrite_post_props(m0, bn, base as nat, vs);
        }
        Ok(true)
    }

    /// Overwrites every field of tuple `index` with safety overwrites, so
    /// the write may extend the backing list past its current length.
    pub fn safety_overwrite(&self, store: &mut Store, index: usize, value: &Vec<Vec<u8>>) -> (r:
        Result<bool, String>)
        requires
            self.wf(),
            (index as nat) * self.arity() + self.arity() <= usize::MAX,
            list_length(old(store)@, self.bn()) is Some,
        ensures
            value@.len() != self.arity() ==> r is Err && final(store)@ == old(store)@,
            r is Ok ==> value@.len() == self.arity() && final(store)@ == tl_safety_post(
                old(store)@,
                self.bn(),
                (index as nat) * self.arity(),
                value.deep_view(),
            ),
            r is Ok ==> forall|j: nat|
                j < self.arity() ==> #[trigger] list_elem(
                    final(store)@,
                    self.bn(),
                    tl_slot(index as nat, self.arity(), j),
                ) == Some(value.deep_view()[j as int]),
            agrees_except(
                old(store)@,
                final(store)@,
                tl_footprint(self.bn(), (index as nat) * self.arity(), self.arity()),
            ),
            list_length(final(store)@, self.bn()) is Some,
    {
        if value.len() != self.len as usize {
            return Err("Value length error".to_owned());
        }
        let base = index * (self.len as usize);
        proof {
            assert((index as nat) * self.arity() >= 0) by (nonlinear_arith);
        }
        let ghost m0 = store@;
        let ghost vs = value.deep_view();
        let ghost bn = self.bn();
        let ghost fp = tl_footprint(bn, base as nat, self.arity());
        let mut i: usize = 0;
        while i < value.len()
            invariant
                self.wf(),
                value@.len() == self.arity(),
                vs == value.deep_view(),
                vs.len() == self.arity(),
                bn == self.bn(),
                fp == tl_footprint(bn, base as nat, self.arity()),
                base as nat == (index as nat) * self.arity(),
                base + value@.len() <= usize::MAX,
                i <= value@.len(),
                store@ == tl_safety_post(m0, bn, base as nat, vs.take(i as int)),
                m0 == old(store)@,
                list_length(m0, bn) is Some,
                list_length(store@, bn) is Some,
            decreases value@.len() - i,
        {
            let ghost m_before = store@;
            let r1 = self.list.safety_overwrite(store, base + i, &value[i]);
            match r1 {
                Ok(_) => {
                    proof {
                        assert(vs.take(i as int + 1).drop_last() =~= vs.take(i as int));
                        assert(vs.take(i as int + 1).last() == vs[i as int]);
                        assert(vs[i as int] == value@[i as int]@);
                    }
                },
                Err(e) => {
                    proof {
                        lemma_tl_safety_post_props(m0, bn, base as nat, vs.take(i as int));
                        assert(tl_footprint(bn, base as nat, vs.take(i as int).len()).subset_of(
                            fp,
                        ));
                        agrees_trans(
                            m0,
                            m0,
                            m_before,
                            tl_footprint(bn, base as nat, vs.take(i as int).len()),
                            fp,
                        );
                        agrees_trans(
                            m0,
                            m_before,
                            store@,
                            set![
                                list_elem_key(bn, (base + i) as nat),
                                list_len_key(bn),
                            ],
                            fp,
                        );
                    }
                    let mut comp_err: Option<String> = None;
                    let mut jj: usize = 0;
                    while jj < i
                        invariant
                            self.wf(),
                            bn == self.bn(),
                            fp == tl_footprint(bn, base as nat, self.arity()),
                            jj <= i,
                            i < self.arity(),
                            base as nat == (index as nat) * self.arity(),
                            base + self.arity() <= usize::MAX,
                            list_length(store@, bn) is Some,
                            m0 == old(store)@,
                            agrees_except(m0, store@, fp),
                        decreases i - jj,
                    {
                        let ghost m_b = store@;
                        match self.list.delete(store, base + jj) {
                            Ok(_) => {},
                            Err(e1) => {
                                if comp_err.is_none() {
                                    comp_err = Some(e1);
                                }
                            },
                        }
                        proof {
                            agrees_trans(
                                m0,
                                m_b,
                                store@,
                                set![
                                    list_elem_key(bn, (base + jj) as nat),
                                    list_len_key(bn),
                                ],
                                fp,
                            );
                        }
                        jj = jj + 1;
                    }
                    return match comp_err {
                        None => Err(e),
                        Some(e1) => Err(join_errors(e, e1)),
                    };
                },
            }
            i = i + 1;
        }
        proof {
            assert(vs.take(vs.len() as int) =~= vs);
            lemma_tl_safety_post_props(m0, bn, base as nat, vs);
        }
        Ok(true)
    }

    /// Appends a tuple: extends the backing length by the number of fields
    /// supplied, then overwrites the new tail tuple. Only a full tuple can
    /// complete successfully; a short or long `value` corrupts no tuple
    /// but can leave the extended length behind, as the interface always
    /// could.
    pub fn append(&self, store: &mut Store, value: &Vec<Vec<u8>>) -> (r: Result<bool, String>)
        requires
            self.wf(),
            self.len != 0,
            list_length(old(store)@, self.bn()) matches Some(l) ==> l + value@.len()
                <= usize::MAX,
        ensures
            r is Ok ==> list_length(old(store)@, self.bn()) is Some && value@.len()
                == self.arity(),
            r is Ok ==> list_length(final(store)@, self.bn()) == Some(
                (list_length(old(store)@, self.bn()).unwrap() + value@.len()) as nat,
            ),
            r is Ok ==> final(store)@ == tl_overwrite_post(
                list_set_len_post(
                    old(store)@,
                    self.bn(),
                    (list_length(old(store)@, self.bn()).unwrap() + value@.len()) as nat,
                ),
                self.bn(),
                (((list_length(old(store)@, self.bn()).unwrap() + value@.len()) / self.arity()
                    - 1) * self.arity()) as nat,
                value.deep_view(),
            ),
            list_length(old(store)@, self.bn()) is None ==> final(store)@ == old(store)@,
            list_length(old(store)@, self.bn()) is Some ==> list_length(
                final(store)@,
                self.bn(),
            ) is Some,
            agrees_except(old(store)@, final(store)@, list_footprint(self.bn())),
    {
        let ghost m0 = store@;
        let ghost bn = self.bn();
        let l0 = match self.list.length(store) {
            Some(l) => l,
            None => {
                return Err("Failed to obtain List length".to_owned());
            },
        };
        match self.list.change_length(store, l0 + value.len()) {
            Ok(_) => {},
            Err(e) => {
                return Err(e);
            },
        }
        let ghost m1 = store@;
        let lu = match self.list.length(store) {
            Some(x) => x,
            None => {
                return Err("Failed to obtain List length".to_owned());
            },
        };
        let l2 = lu / (self.len as usize);
        if l2 == 0 {
            return Err("Failed to obtain List length".to_owned());
        }
        proof {
            let ll = list_length(m1, bn).unwrap();
            vstd::arithmetic::div_mod::lemma_fundamental_div_mod(ll as int, self.arity() as int);
            assert((ll / self.arity()) * self.arity() <= ll) by (nonlinear_arith)
                requires
                    self.arity() > 0,
                    ll == self.arity() * (ll / self.arity()) + ll % self.arity(),
                    ll % self.arity() >= 0,
            ;
            assert(l2 as nat == ll / self.arity());
            assert(((l2 - 1) as nat) * self.arity() + self.arity() == (l2 as nat)
                * self.arity()) by (nonlinear_arith)
                requires
                    l2 >= 1,
            ;
            assert((l2 as nat) * self.arity() <= ll);
        }
        let r = self.overwrite(store, l2 - 1, value);
        proof {
            if r is Ok {
                lemma_length_after_set_len(m0, bn, (l0 + value@.len()) as nat);
                lemma_tl_overwrite_post_props(
                    m1,
                    bn,
                    ((l2 - 1) as nat) * self.arity(),
                    value.deep_view(),
                );
            }
        }
        r
    }

    /// Deletes every field of tuple `index` in ascending slot order,
    /// best-effort: later fields are attempted even after a failure, and
    /// the first error is reported. The backing length shrinks only
    /// through the backing list's tail-only rule.
    pub fn delete(&self, store: &mut Store, index: usize) -> (r: Result<bool, String>)
        requires
            self.wf(),
            (index as nat) * self.arity() + self.arity() <= usize::MAX,
            list_length(old(store)@, self.bn()) is Some,
        ensures
            agrees_except(
                old(store)@,
                final(store)@,
                tl_footprint(self.bn(), (index as nat) * self.arity(), self.arity()),
            ),
            list_length(final(store)@, self.bn()) is Some,
            r is Ok ==> forall|j: nat|
                j < self.arity() ==> #[trigger] list_elem(
                    final(store)@,
                    self.bn(),
                    tl_slot(index as nat, self.arity(), j),
                ) is None,
            r is Ok && self.len == 2 && list_length(old(store)@, self.bn()).unwrap() % 2 == 0
                ==> list_length(final(store)@, self.bn()) == (if (index as nat + 1) * 2
                == list_length(old(store)@, self.bn()).unwrap() {
                Some((list_length(old(store)@, self.bn()).unwrap() - 2) as nat)
            } else {
                list_length(old(store)@, self.bn())
            }),
    {
        let base = index * (self.len as usize);
        proof {
            assert((index as nat) * self.arity() >= 0) by (nonlinear_arith);
        }
        let ghost m0 = store@;
        let ghost bn = self.bn();
        let ghost fp = tl_footprint(bn, base as nat, self.arity());
        let mut first_err: Option<String> = None;
        let mut j: usize = 0;
        while j < self.len as usize
            invariant
                self.wf(),
                bn == self.bn(),
                fp == tl_footprint(bn, base as nat, self.arity()),
                base as nat == (index as nat) * self.arity(),
                base + self.arity() <= usize::MAX,
                j <= self.arity(),
                m0 == old(store)@,
                list_length(m0, bn) is Some,
                list_length(store@, bn) is Some,
                agrees_except(m0, store@, fp),
                first_err is None ==> forall|x: nat|
                    x < j ==> #[trigger] list_elem(store@, bn, (base + x) as nat) is None,
                first_err is None && self.len == 2 && list_length(m0, bn).unwrap() % 2 == 0
                    ==> list_length(store@, bn) == (if j == 2 && (index as nat + 1) * 2
                    == list_length(m0, bn).unwrap() {
                    Some((list_length(m0, bn).unwrap() - 2) as nat)
                } else {
                    list_length(m0, bn)
                }),
            decreases self.arity() - j,
        {
            let ghost m_b = store@;
            let r1 = self.list.delete(store, base + j);
            proof {
                agrees_trans(
                    m0,
                    m_b,
                    store@,
                    set![
                        list_elem_key(bn, (base + j) as nat),
                        list_len_key(bn),
                    ],
                    fp,
                );
                if r1 is Ok {
                    // A successful delete either leaves the recorded
                    // length or shrinks a length of `x + 2` to `x` through
                    // the tail rule: an even length stays even, and only
                    // the second slot of the last tuple can trigger it.
                    lemma_length_after_remove_elem(m_b, bn, (base + j) as nat);
                    if (base + j) as nat != 0 && list_length(m_b, bn) == Some(
                        ((base + j) + 1) as nat,
                    ) {
                        lemma_length_after_set_len(m_b, bn, ((base + j) - 1) as nat);
                        lemma_length_after_remove_elem(
                            list_set_len_post(m_b, bn, ((base + j) - 1) as nat),
                            bn,
                            (base + j) as nat,
                        );
                    }
                    if first_err is None && self.len == 2 && list_length(m0, bn).unwrap() % 2
                        == 0 {
                        assert((index as nat) * 2 % 2 == 0) by (nonlinear_arith);
                        if j == 0 {
                            assert(((base + 1) as nat) % 2 == 1);
                        }
                    }
                }
            }
            match r1 {
                Ok(_) => {},
                Err(e) => {
                    if first_err.is_none() {
                        first_err = Some(e);
                    }
                },
            }
            j = j + 1;
        }
        match first_err {
            Some(e) => Err(e),
            None => Ok(true),
        }
    }
}

} // verus!
