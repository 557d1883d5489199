//! Growable lists over the key-value store.
//!
//! A list named `n` is persisted as a length counter under `List:{n}`
//! (canonical decimal ASCII) and element entries under `List:{n}:{i}`.
//! The length is the exclusive upper bound of the live indices; deleting a
//! non-tail index leaves a tombstoned hole below the length.
use vstd::prelude::*;
use vstd::string::StringExecFns;
use crate::bytes::{append_bytes, lemma_concat_split, COLON};
use crate::digits::{
    dec_digits,
    dec_to_usize,
    dec_value,
    is_dec_digits,
    lemma_dec_digits_of_value,
    lemma_dec_digits_wf,
    lemma_dec_value_of_digits,
    usize_to_dec,
};
use crate::store::{agrees_except, Store};

verus! {

/// Joins two error messages with a comma, so that a failed compensation
/// does not hide the failure it was compensating for.
pub fn join_errors(a: String, b: String) -> (r: String)
    ensures
        r@ == a@ + ","@ + b@,
{
    a.concat(",").concat(b.as_str())
}

/// The key holding the length of the list named `name`.
pub open spec fn list_len_key(name: Seq<u8>) -> Seq<u8> {
    seq![76u8, 105u8, 115u8, 116u8, 58u8] + name
}

/// The key holding element `i` of the list named `name`.
pub open spec fn list_elem_key(name: Seq<u8>, i: nat) -> Seq<u8> {
    list_len_key(name) + seq![COLON] + dec_digits(i)
}

/// Whether a length entry exists for `name`.
pub open spec fn list_exists(m: Map<Seq<u8>, Seq<u8>>, name: Seq<u8>) -> bool {
    m.contains_key(list_len_key(name))
}

/// The length the store records for the list named `name`: `Some` exactly
/// when the length entry exists, is canonical decimal, and fits in `usize`.
pub open spec fn list_length(m: Map<Seq<u8>, Seq<u8>>, name: Seq<u8>) -> Option<nat> {
    if list_exists(m, name) && is_dec_digits(m[list_len_key(name)]) && dec_value(
        m[list_len_key(name)],
    ) <= usize::MAX {
        Some(dec_value(m[list_len_key(name)]))
    } else {
        None
    }
}

/// The value stored at index `i` of the list named `name`, if any.
pub open spec fn list_elem(m: Map<Seq<u8>, Seq<u8>>, name: Seq<u8>, i: nat) -> Option<Seq<u8>> {
    if m.contains_key(list_elem_key(name, i)) {
        Some(m[list_elem_key(name, i)])
    } else {
        None
    }
}

/// Every store key belonging to the list named `name`.
pub open spec fn list_footprint(name: Seq<u8>) -> Set<Seq<u8>> {
    Set::new(
        |k: Seq<u8>|
            k == list_len_key(name) || (exists|i: nat| k == #[trigger] list_elem_key(name, i)),
    )
}

/// A length key never coincides with an element key of the same list.
pub proof fn lemma_list_keys_distinct(name: Seq<u8>, i: nat)
    ensures
        list_len_key(name) != list_elem_key(name, i),
{
    lemma_dec_digits_wf(i);
    assert(list_elem_key(name, i).len() == list_len_key(name).len() + 1 + dec_digits(i).len());
}

/// Element keys of one list are distinct across indices.
pub proof fn lemma_elem_keys_injective(name: Seq<u8>, i: nat, j: nat)
    requires
        list_elem_key(name, i) == list_elem_key(name, j),
    ensures
        i == j,
{
    let p = list_len_key(name) + seq![COLON];
    assert(list_elem_key(name, i) == p + dec_digits(i)) by {
        assert(list_len_key(name) + seq![COLON] + dec_digits(i) =~= p + dec_digits(i));
    }
    assert(list_elem_key(name, j) == p + dec_digits(j)) by {
        assert(list_len_key(name) + seq![COLON] + dec_digits(j) =~= p + dec_digits(j));
    }
    lemma_dec_digits_wf(i);
    lemma_dec_digits_wf(j);
    if dec_digits(i).len() == dec_digits(j).len() {
        lemma_concat_split(p, dec_digits(i), p, dec_digits(j));
        lemma_dec_value_of_digits(i);
        lemma_dec_value_of_digits(j);
    } else {
        assert((p + dec_digits(i)).len() != (p + dec_digits(j)).len());
    }
}


/// Lists whose names differ at some shared position share no store key:
/// every key embeds the full name right after the fixed prefix.
pub proof fn lemma_list_keys_differ_at(d1: Seq<u8>, d2: Seq<u8>, pos: int)
    requires
        0 <= pos < d1.len(),
        pos < d2.len(),
        d1[pos] != d2[pos],
    ensures
        list_len_key(d1) != list_len_key(d2),
        forall|j: nat| list_len_key(d1) != #[trigger] list_elem_key(d2, j),
        forall|i: nat| #[trigger] list_elem_key(d1, i) != list_len_key(d2),
        forall|i: nat, j: nat| #[trigger] list_elem_key(d1, i) != #[trigger] list_elem_key(d2, j),
{
    assert(list_len_key(d1)[5 + pos] == d1[pos]);
    assert(list_len_key(d2)[5 + pos] == d2[pos]);
    assert forall|j: nat| list_len_key(d1) != #[trigger] list_elem_key(d2, j) by {
        assert(list_elem_key(d2, j)[5 + pos] == d2[pos]);
    }
    assert forall|i: nat| #[trigger] list_elem_key(d1, i) != list_len_key(d2) by {
        assert(list_elem_key(d1, i)[5 + pos] == d1[pos]);
    }
    assert forall|i: nat, j: nat|
        #[trigger] list_elem_key(d1, i) != #[trigger] list_elem_key(d2, j) by {
        assert(list_elem_key(d1, i)[5 + pos] == d1[pos]);
        assert(list_elem_key(d2, j)[5 + pos] == d2[pos]);
    }
}

/// Setting the length entry to `len` makes the recorded length `len` and
/// leaves every element unchanged.
pub proof fn lemma_length_after_set_len(
    m: Map<Seq<u8>, Seq<u8>>,
    name: Seq<u8>,
    len: nat,
)
    requires
        len <= usize::MAX,
    ensures
        list_length(m.insert(list_len_key(name), dec_digits(len)), name) == Some(len),
        forall|i: nat|
            #[trigger] list_elem(m.insert(list_len_key(name), dec_digits(len)), name, i)
                == list_elem(m, name, i),
{
    lemma_dec_digits_wf(len);
    lemma_dec_value_of_digits(len);
    assert forall|i: nat|
        #[trigger] list_elem(m.insert(list_len_key(name), dec_digits(len)), name, i) == list_elem(
        m,
        name,
        i,
    ) by {
        lemma_list_keys_distinct(name, i);
    }
}

/// Writing an element leaves the recorded length and the other elements
/// unchanged.
pub proof fn lemma_length_after_set_elem(
    m: Map<Seq<u8>, Seq<u8>>,
    name: Seq<u8>,
    i: nat,
    v: Seq<u8>,
)
    ensures
        list_length(m.insert(list_elem_key(name, i), v), name) == list_length(m, name),
        list_exists(m.insert(list_elem_key(name, i), v), name) == list_exists(m, name),
        list_elem(m.insert(list_elem_key(name, i), v), name, i) == Some(v),
        forall|j: nat|
            j != i ==> #[trigger] list_elem(m.insert(list_elem_key(name, i), v), name, j)
                == list_elem(m, name, j),
{
    lemma_list_keys_distinct(name, i);
    assert forall|j: nat|
        j != i implies #[trigger] list_elem(m.insert(list_elem_key(name, i), v), name, j)
        == list_elem(m, name, j) by {
        if list_elem_key(name, i) == list_elem_key(name, j) {
            lemma_elem_keys_injective(name, i, j);
        }
    }
}

/// Removing an element leaves the recorded length and the other elements
/// unchanged, and empties that index.
pub proof fn lemma_length_after_remove_elem(m: Map<Seq<u8>, Seq<u8>>, name: Seq<u8>, i: nat)
    ensures
        list_length(m.remove(list_elem_key(name, i)), name) == list_length(m, name),
        list_elem(m.remove(list_elem_key(name, i)), name, i) is None,
        forall|j: nat|
            j != i ==> #[trigger] list_elem(m.remove(list_elem_key(name, i)), name, j)
                == list_elem(m, name, j),
{
    lemma_list_keys_distinct(name, i);
    assert forall|j: nat|
        j != i implies #[trigger] list_elem(m.remove(list_elem_key(name, i)), name, j)
        == list_elem(m, name, j) by {
        if list_elem_key(name, i) == list_elem_key(name, j) {
            lemma_elem_keys_injective(name, i, j);
        }
    }
}

/// The store after a successful `change_length(len)`: the silent-restore
/// branch leaves the store as it stood, so both outcomes are possible.
pub open spec fn list_set_len_post(
    m: Map<Seq<u8>, Seq<u8>>,
    name: Seq<u8>,
    len: nat,
) -> Map<Seq<u8>, Seq<u8>> {
    m.insert(list_len_key(name), dec_digits(len))
}

/// The store after a successful `overwrite(i, v)`.
pub open spec fn list_overwrite_post(
    m: Map<Seq<u8>, Seq<u8>>,
    name: Seq<u8>,
    i: nat,
    v: Seq<u8>,
) -> Map<Seq<u8>, Seq<u8>> {
    m.insert(list_elem_key(name, i), v)
}

/// The store after a successful `append(v)` on a list of recorded length
/// `l`: the length advances to `l + 1`, then the value lands at index `l`.
pub open spec fn list_append_post(
    m: Map<Seq<u8>, Seq<u8>>,
    name: Seq<u8>,
    l: nat,
    v: Seq<u8>,
) -> Map<Seq<u8>, Seq<u8>> {
    list_set_len_post(m, name, l + 1).insert(list_elem_key(name, l), v)
}

/// The store after a successful `safety_overwrite(i, v)` on a list of
/// recorded length `l`: the length first grows to `i + 1` if `i` lies at or
/// beyond the tail.
pub open spec fn list_safety_overwrite_post(
    m: Map<Seq<u8>, Seq<u8>>,
    name: Seq<u8>,
    l: nat,
    i: nat,
    v: Seq<u8>,
) -> Map<Seq<u8>, Seq<u8>> {
    if i < l {
        list_overwrite_post(m, name, i, v)
    } else {
        list_overwrite_post(list_set_len_post(m, name, i + 1), name, i, v)
    }
}

/// The store after a successful `delete(i)`: the element entry goes away;
/// when `i` is the tail and not zero, the recorded length first shrinks to
/// `i - 1`.
pub open spec fn list_delete_post(
    m: Map<Seq<u8>, Seq<u8>>,
    name: Seq<u8>,
    i: nat,
) -> Map<Seq<u8>, Seq<u8>> {
    if i != 0 && list_length(m, name) == Some((i + 1) as nat) {
        list_set_len_post(m, name, (i - 1) as nat).remove(list_elem_key(name, i))
    } else {
        m.remove(list_elem_key(name, i))
    }
}

/// The states a failed `delete(i)` can leave behind: untouched, the
/// tail-shrink applied alone, the removal applied alone, or both.
pub open spec fn list_delete_err_states(
    m: Map<Seq<u8>, Seq<u8>>,
    name: Seq<u8>,
    i: nat,
    mf: Map<Seq<u8>, Seq<u8>>,
) -> bool {
    ||| mf == m
    ||| mf == m.remove(list_elem_key(name, i))
    ||| (i != 0 && mf == list_set_len_post(m, name, (i - 1) as nat))
    ||| (i != 0 && mf == list_set_len_post(m, name, (i - 1) as nat).remove(
        list_elem_key(name, i),
    ))
}

/// The states a failed `overwrite(i, v)` can leave behind: the bounds or
/// length-read error leaves the store untouched; after a failed value
/// write (which may or may not have landed) the compensating delete ran,
/// completely, partially, or not at all.
pub open spec fn list_overwrite_err_states(
    m: Map<Seq<u8>, Seq<u8>>,
    name: Seq<u8>,
    i: nat,
    v: Seq<u8>,
    mf: Map<Seq<u8>, Seq<u8>>,
) -> bool {
    let w = m.insert(list_elem_key(name, i), v);
    ||| list_delete_err_states(m, name, i, mf)
    ||| mf == list_delete_post(m, name, i)
    ||| list_delete_err_states(w, name, i, mf)
    ||| mf == list_delete_post(w, name, i)
}

/// Builds the length key of `name`.
pub fn make_len_key(name: &[u8]) -> (k: Vec<u8>)
    ensures
        k@ == list_len_key(name@),
{
    let mut k: Vec<u8> = Vec::new();
    k.push(76);
    k.push(105);
    k.push(115);
    k.push(116);
    k.push(58);
    proof {
        assert(k@ =~= seq![76u8, 105u8, 115u8, 116u8, 58u8]);
    }
    append_bytes(&mut k, name);
    k
}

/// A growable list; the handle carries only the name, and every operation
/// takes the store it acts on.
pub struct ListDb {
    pub name: Vec<u8>,
}

impl ListDb {
    /// The store key of element `index`.
    pub fn get_key(&self, index: usize) -> (k: Vec<u8>)
        ensures
            k@ == list_elem_key(self.name@, index as nat),
    {
        let mut k = make_len_key(self.name.as_slice());
        k.push(COLON);
        let d = usize_to_dec(index);
        append_bytes(&mut k, d.as_slice());
        proof {
            assert(k@ =~= list_elem_key(self.name@, index as nat));
        }
        k
    }

    /// Reads the recorded length: `Some` only when the length entry holds
    /// a canonical decimal that fits in `usize`; `None` also covers a
    /// store read that failed.
    pub fn length(&self, store: &Store) -> (r: Option<usize>)
        ensures
            r matches Some(l) ==> list_length(store@, self.name@) == Some(l as nat),
            list_length(store@, self.name@) is None ==> r is None,
    {
        let lk = make_len_key(self.name.as_slice());
        match store.get(lk.as_slice()) {
            Ok(Some(v)) => dec_to_usize(v.as_slice()),
            Ok(None) => None,
            Err(_) => None,
        }
    }

    /// Opens the list if its length entry exists; creates nothing.
    pub fn open(store: &Store, name: Vec<u8>) -> (r: Option<ListDb>)
        ensures
            r matches Some(l) ==> l.name@ == name@ && list_exists(store@, name@),
            !list_exists(store@, name@) ==> r is None,
    {
        let lk = make_len_key(name.as_slice());
        match store.get(lk.as_slice()) {
            Ok(Some(_)) => Some(ListDb { name }),
            _ => None,
        }
    }

    /// Opens the list named `name`: an existing list is reused untouched,
    /// otherwise a zero length entry is written; on a failed write the
    /// entry is deleted again (best-effort) and the original error is
    /// surfaced.
    pub fn new(store: &mut Store, name: Vec<u8>) -> (r: Result<ListDb, String>)
        ensures
            r matches Ok(l) ==> l.name@ == name@,
            r is Ok && list_exists(old(store)@, name@) ==> final(store)@ == old(store)@,
            r is Ok && !list_exists(old(store)@, name@) ==> final(store)@ == list_set_len_post(
                old(store)@,
                name@,
                0,
            ),
            r is Ok ==> list_exists(final(store)@, name@),
            r is Ok && !list_exists(old(store)@, name@) ==> list_length(final(store)@, name@)
                == Some(0nat),
            agrees_except(old(store)@, final(store)@, set![list_len_key(name@)]),
    {
        let lk = make_len_key(name.as_slice());
        match store.get(lk.as_slice()) {
            Ok(Some(_)) => Ok(ListDb { name }),
            Err(e) => Err(e),
            Ok(None) => {
                let zero = usize_to_dec(0);
                let ghost m0 = store@;
                let r1 = store.insert(lk.as_slice(), zero.as_slice());
                proof {
                    lemma_length_after_set_len(m0, name@, 0);
                }
                match r1 {
                    Ok(_) => Ok(ListDb { name }),
                    Err(e) => {
                        match store.delete(lk.as_slice()) {
                            Ok(_) => Err(e),
                            Err(e1) => Err(join_errors(e, e1)),
                        }
                    },
                }
            },
        }
    }

    /// Reads index `index`; absent covers "never written", "tombstoned",
    /// "beyond the length", and a store read that failed, alike.
    pub fn access(&self, store: &Store, index: usize) -> (r: Option<Vec<u8>>)
        ensures
            r matches Some(v) ==> list_elem(store@, self.name@, index as nat) == Some(v@),
            list_elem(store@, self.name@, index as nat) is None ==> r is None,
    {
        let ek = self.get_key(index);
        match store.get(ek.as_slice()) {
            Ok(Some(v)) => Some(v),
            _ => None,
        }
    }

    /// Reads index `index`, distinguishing a truly absent entry from a
    /// failed store read.
    pub fn access_checked(&self, store: &Store, index: usize) -> (r: Result<
        Option<Vec<u8>>,
        String,
    >)
        ensures
            r matches Ok(Some(v)) ==> list_elem(store@, self.name@, index as nat) == Some(v@),
            r matches Ok(None) ==> list_elem(store@, self.name@, index as nat) is None,
    {
        let ek = self.get_key(index);
        store.get(ek.as_slice())
    }

    /// Rewrites the length entry to `len`; on a failed write it restores
    /// the previous value (best-effort) and surfaces the error, compound
    /// if the restoration also failed.
    pub fn change_length(&self, store: &mut Store, len: usize) -> (r: Result<bool, String>)
        requires
            list_length(old(store)@, self.name@) is Some,
        ensures
            r is Ok ==> final(store)@ == list_set_len_post(old(store)@, self.name@, len as nat),
            r is Err ==> final(store)@ == old(store)@ || final(store)@ == list_set_len_post(
                old(store)@,
                self.name@,
                len as nat,
            ),
            agrees_except(old(store)@, final(store)@, set![list_len_key(self.name@)]),
            list_length(final(store)@, self.name@) is Some,
            forall|i: nat|
                #[trigger] list_elem(final(store)@, self.name@, i) == list_elem(
                    old(store)@,
                    self.name@,
                    i,
                ),
    {
        let ghost name = self.name@;
        let alen = match self.length(store) {
            Some(l) => l,
            None => {
                return Err("Failed to obtain List length".to_owned());
            },
        };
        proof {
            // The stored bytes are the canonical form of `alen`.
            lemma_dec_digits_of_value(old(store)@[list_len_key(name)]);
        }
        let lk = make_len_key(self.name.as_slice());
        let lv = usize_to_dec(len);
        let ghost m0 = store@;
        let r1 = store.insert(lk.as_slice(), lv.as_slice());
        proof {
            lemma_length_after_set_len(m0, name, len as nat);
            lemma_length_after_set_len(m0, name, alen as nat);
        }
        match r1 {
            Ok(_) => {
                proof {
                    elem_frame(m0, store@, name);
                }
                Ok(true)
            },
            Err(e) => {
                let av = usize_to_dec(alen);
                let ghost m1 = store@;
                let r2 = store.insert(lk.as_slice(), av.as_slice());
                proof {
                    assert(m1.insert(list_len_key(name), dec_digits(alen as nat)) =~= m0.insert(
                        list_len_key(name),
                        dec_digits(alen as nat),
                    ));
                    assert(m0.insert(list_len_key(name), dec_digits(alen as nat)) =~= m0);
                    lemma_length_after_set_len(m1, name, alen as nat);
                    elem_frame(m0, store@, name);
                }
                match r2 {
                    Ok(_) => Err(e),
                    Err(e1) => Err(join_errors(e, e1)),
                }
            },
        }
    }

    /// Writes `value` at `index`, which must lie below the recorded
    /// length; on a failed write the target index is deleted as cleanup
    /// and the original error (or a compound one) is surfaced.
    pub fn overwrite(&self, store: &mut Store, index: usize, value: &Vec<u8>) -> (r: Result<
        bool,
        String,
    >)
        requires
            list_length(old(store)@, self.name@) is Some,
        ensures
            r is Ok ==> (index as nat) < list_length(old(store)@, self.name@).unwrap() && final(store)@ == list_overwrite_post(old(store)@, self.name@, index as nat, value@),
            (index as nat) >= list_length(old(store)@, self.name@).unwrap() ==> r is Err && final(store)@ == old(store)@,
            r is Ok ==> list_length(final(store)@, self.name@) == list_length(
                old(store)@,
                self.name@,
            ) && list_elem(final(store)@, self.name@, index as nat) == Some(value@),
            r is Err ==> list_overwrite_err_states(
                old(store)@,
                self.name@,
                index as nat,
                value@,
                final(store)@,
            ),
            agrees_except(
                old(store)@,
                final(store)@,
                set![
                    list_elem_key(self.name@, index as nat),
                    list_len_key(self.name@),
                ],
            ),
            list_length(final(store)@, self.name@) is Some,
    {
        let ghost name = self.name@;
        let l = match self.length(store) {
            Some(l) => l,
            None => {
                return Err("Failed to obtain List length".to_owned());
            },
        };
        if l > index {
            let ek = self.get_key(index);
            let ghost m0 = store@;
            let r1 = store.insert(ek.as_slice(), value.as_slice());
            proof {
                lemma_length_after_set_elem(m0, name, index as nat, value@);
            }
            match r1 {
                Ok(_) => Ok(true),
                Err(e) => {
                    let ghost m_mid = store@;
                    let dr = self.delete(store, index);
                    proof {
                        crate::store::agrees_trans(
                            m0,
                            m_mid,
                            store@,
                            set![
                                list_elem_key(name, index as nat),
                                list_len_key(name),
                            ],
                            set![
                                list_elem_key(name, index as nat),
                                list_len_key(name),
                            ],
                        );
                    }
                    match dr {
                        Ok(_) => Err(e),
                        Err(e1) => Err(join_errors(e, e1)),
                    }
                },
            }
        } else {
            Err("Index too large".to_owned())
        }
    }

    /// Writes `value` at `index` whatever the recorded length, first
    /// extending the length to `index + 1` when `index` lies at or beyond
    /// the tail.
    pub fn safety_overwrite(&self, store: &mut Store, index: usize, value: &Vec<u8>) -> (r:
        Result<bool, String>)
        requires
            list_length(old(store)@, self.name@) is Some,
            index < usize::MAX,
        ensures
            r is Ok ==> final(store)@ == list_safety_overwrite_post(
                old(store)@,
                self.name@,
                list_length(old(store)@, self.name@).unwrap(),
                index as nat,
                value@,
            ),
            r is Ok ==> list_elem(final(store)@, self.name@, index as nat) == Some(value@),
            r is Ok ==> list_length(final(store)@, self.name@) == Some(
                if (index as nat) < list_length(old(store)@, self.name@).unwrap() {
                    list_length(old(store)@, self.name@).unwrap()
                } else {
                    (index + 1) as nat
                },
            ),
            agrees_except(
                old(store)@,
                final(store)@,
                set![
                    list_elem_key(self.name@, index as nat),
                    list_len_key(self.name@),
                ],
            ),
            list_length(final(store)@, self.name@) is Some,
    {
        let ghost name = self.name@;
        let ghost m0 = store@;
        let l = match self.length(store) {
            Some(l) => l,
            None => {
                return Err("Failed to obtain List length".to_owned());
            },
        };
        if l != 0 && index <= l - 1 {
            let r = self.overwrite(store, index, value);
            proof {
                if r is Ok {
                    lemma_length_after_set_elem(m0, name, index as nat, value@);
                }
            }
            r
        } else {
            match self.change_length(store, index + 1) {
                Ok(_) => {},
                Err(e) => {
                    return Err(e);
                },
            }
            let ghost m1 = store@;
            let r = self.overwrite(store, index, value);
            proof {
                if r is Ok {
                    // A silently-restored length would have kept `index` at
                    // or beyond the tail, and the overwrite would have been
                    // rejected; so the length really was extended.
                    lemma_length_after_set_len(m0, name, (index + 1) as nat);
                    assert(m1 == list_set_len_post(m0, name, (index + 1) as nat));
                    lemma_length_after_set_elem(m1, name, index as nat, value@);
                }
            }
            r
        }
    }

    /// Deletes the entry at `index`; when `index` is the current tail and
    /// not zero, the recorded length first shrinks to `index - 1`.
    /// Deleting any other index never changes the length.
    pub fn delete(&self, store: &mut Store, index: usize) -> (r: Result<bool, String>)
        requires
            index != 0 ==> list_length(old(store)@, self.name@) is Some,
        ensures
            r is Ok ==> final(store)@ == list_delete_post(old(store)@, self.name@, index as nat),
            r is Err ==> list_delete_err_states(
                old(store)@,
                self.name@,
                index as nat,
                final(store)@,
            ),
            r is Ok ==> list_elem(final(store)@, self.name@, index as nat) is None,
            r is Ok && !(index != 0 && list_length(old(store)@, self.name@) == Some(
                (index + 1) as nat,
            )) ==> list_length(final(store)@, self.name@) == list_length(
                old(store)@,
                self.name@,
            ),
            agrees_except(
                old(store)@,
                final(store)@,
                set![
                    list_elem_key(self.name@, index as nat),
                    list_len_key(self.name@),
                ],
            ),
            list_length(old(store)@, self.name@) is Some ==> list_length(
                final(store)@,
                self.name@,
            ) is Some,
            forall|j: nat|
                j != index as nat ==> #[trigger] list_elem(final(store)@, self.name@, j)
                    == list_elem(old(store)@, self.name@, j),
    {
        let ghost name = self.name@;
        let ghost m0 = store@;
        if index != 0 {
            let l = match self.length(store) {
                Some(l) => l,
                None => {
                    return Err("Failed to obtain List length".to_owned());
                },
            };
            if l > 0 && l - 1 == index {
                match self.change_length(store, index - 1) {
                    Ok(_) => {},
                    Err(e) => {
                        return Err(e);
                    },
                }
            }
        }
        let ek = self.get_key(index);
        let ghost m1 = store@;
        let r = store.delete(ek.as_slice());
        proof {
            lemma_length_after_remove_elem(m1, name, index as nat);
            lemma_length_after_remove_elem(m0, name, index as nat);
            if index != 0 {
                lemma_length_after_set_len(m0, name, (index - 1) as nat);
            }
        }
        match r {
            Ok(_) => Ok(true),
            Err(e) => Err(e),
        }
    }

    /// Appends `value` at the tail: advances the length by one, then
    /// writes the value at the old tail index. A failed value write after
    /// a successful length advance is not rolled back here; the slot stays
    /// a tombstoned hole and the error is reported.
    pub fn append(&self, store: &mut Store, value: &Vec<u8>) -> (r: Result<bool, String>)
        requires
            list_length(old(store)@, self.name@) matches Some(l) ==> l < usize::MAX,
        ensures
            r is Ok ==> list_length(old(store)@, self.name@) is Some,
            r is Ok ==> final(store)@ == list_append_post(
                old(store)@,
                self.name@,
                list_length(old(store)@, self.name@).unwrap(),
                value@,
            ),
            r is Ok ==> list_length(final(store)@, self.name@) == Some(
                (list_length(old(store)@, self.name@).unwrap() + 1) as nat,
            ) && list_elem(
                final(store)@,
                self.name@,
                list_length(old(store)@, self.name@).unwrap(),
            ) == Some(value@),
            list_length(old(store)@, self.name@) is None ==> final(store)@ == old(store)@,
            r is Err && list_length(old(store)@, self.name@) is Some ==> ({
                let l = list_length(old(store)@, self.name@).unwrap();
                ||| list_length(final(store)@, self.name@) == Some(l)
                ||| list_length(final(store)@, self.name@) == Some((l + 1) as nat)
                ||| (l >= 1 && list_length(final(store)@, self.name@) == Some((l - 1) as nat))
            }),
            agrees_except(
                old(store)@,
                final(store)@,
                if list_length(old(store)@, self.name@) is Some {
                    set![
                        list_len_key(self.name@),
                        list_elem_key(self.name@, list_length(old(store)@, self.name@).unwrap()),
                    ]
                } else {
                    Set::empty()
                },
            ),
            list_length(old(store)@, self.name@) is Some ==> list_length(
                final(store)@,
                self.name@,
            ) is Some,
    {
        let ghost name = self.name@;
        let ghost m0 = store@;
        let index = match self.length(store) {
            Some(l) => l,
            None => {
                return Err("Failed to obtain List length".to_owned());
            },
        };
        match self.change_length(store, index + 1) {
            Ok(_) => {
                let ghost m1 = store@;
                let r = self.overwrite(store, index, value);
                proof {
                    lemma_length_after_set_len(m0, name, (index + 1) as nat);
                    assert(m1 == list_set_len_post(m0, name, (index + 1) as nat));
                    lemma_length_after_set_elem(m1, name, index as nat, value@);
                    if r is Err {
                        // Walk the compensation shapes: the length ends at
                        // the advanced value or, through the tail rule of
                        // the cleanup delete, one below the old one.
                        let ek = list_elem_key(name, index as nat);
                        let w = m1.insert(ek, value@);
                        lemma_length_after_remove_elem(m1, name, index as nat);
                        lemma_length_after_remove_elem(w, name, index as nat);
                        if index as nat != 0 {
                            lemma_length_after_set_len(m1, name, (index - 1) as nat);
                            lemma_length_after_set_len(w, name, (index - 1) as nat);
                            lemma_length_after_remove_elem(
                                list_set_len_post(m1, name, (index - 1) as nat),
                                name,
                                index as nat,
                            );
                            lemma_length_after_remove_elem(
                                list_set_len_post(w, name, (index - 1) as nat),
                                name,
                                index as nat,
                            );
                        }
                    }
                }
                r
            },
            Err(e) => {
                proof {
                    lemma_length_after_set_len(m0, name, (index + 1) as nat);
                }
                Err(e)
            },
        }
    }
}

/// Law: deleting an index always makes that index read as absent; a
/// non-tail delete (and a delete of index zero) leaves the recorded length
/// unchanged, while deleting the tail index `i != 0` shrinks the recorded
/// length to `i - 1`.
pub proof fn lemma_delete_length_law(m: Map<Seq<u8>, Seq<u8>>, name: Seq<u8>, i: nat)
    requires
        list_length(m, name) is Some,
        i < list_length(m, name).unwrap(),
    ensures
        list_elem(list_delete_post(m, name, i), name, i) is None,
        i + 1 < list_length(m, name).unwrap() || i == 0 ==> list_length(
            list_delete_post(m, name, i),
            name,
        ) == list_length(m, name),
        i != 0 && i + 1 == list_length(m, name).unwrap() ==> list_length(
            list_delete_post(m, name, i),
            name,
        ) == Some((i - 1) as nat),
{
    lemma_length_after_remove_elem(m, name, i);
    if i != 0 && list_length(m, name) == Some((i + 1) as nat) {
        lemma_length_after_set_len(m, name, (i - 1) as nat);
        lemma_length_after_remove_elem(list_set_len_post(m, name, (i - 1) as nat), name, i);
    }
}

/// Law: a safety-overwrite at `i` followed by a read of `i` yields the
/// written value, whether `i` lay below or beyond the previous recorded
/// length; the recorded length ends at `max(l, i + 1)`.
pub proof fn lemma_safety_overwrite_access_law(
    m: Map<Seq<u8>, Seq<u8>>,
    name: Seq<u8>,
    l: nat,
    i: nat,
    v: Seq<u8>,
)
    requires
        list_length(m, name) == Some(l),
        i < usize::MAX,
    ensures
        list_elem(list_safety_overwrite_post(m, name, l, i, v), name, i) == Some(v),
        list_length(list_safety_overwrite_post(m, name, l, i, v), name) == Some(
            if i < l {
                l
            } else {
                i + 1
            },
        ),
{
    if i < l {
        lemma_length_after_set_elem(m, name, i, v);
    } else {
        lemma_length_after_set_len(m, name, i + 1);
        lemma_length_after_set_elem(list_set_len_post(m, name, i + 1), name, i, v);
    }
}

/// Elements are untouched by operations that only rewrite the length
/// entry.
proof fn elem_frame(m0: Map<Seq<u8>, Seq<u8>>, m1: Map<Seq<u8>, Seq<u8>>, name: Seq<u8>)
    requires
        agrees_except(m0, m1, set![list_len_key(name)]),
    ensures
        forall|i: nat| #[trigger] list_elem(m1, name, i) == list_elem(m0, name, i),
{
    assert forall|i: nat| #[trigger] list_elem(m1, name, i) == list_elem(m0, name, i) by {
        lemma_list_keys_distinct(name, i);
        assert(!set![list_len_key(name)].contains(list_elem_key(name, i)));
    }
}

} // verus!
