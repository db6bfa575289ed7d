use vstd::prelude::*;
use crate::value::Value;

verus! {

/// The key-to-position lookup table: a halfbrown map from key bytes
/// to a position in the entry list. The collection itself is opaque
/// here; its bindings are named by `key_index_view`.
#[verifier::external_body]
pub struct KeyIndex {
    inner: halfbrown::HashMap<Vec<u8>, usize>,
}

/// The key-to-position bindings the halfbrown map holds.
pub uninterp spec fn key_index_view(m: KeyIndex) -> Map<Seq<u8>, usize>;

/// The empty binding table.
pub open spec fn ki_empty_map() -> Map<Seq<u8>, usize> {
    Map::empty()
}

/// Relies on halfbrown::SizedHashMap::new: a fresh map holds no binding.
#[verifier::external_body]
fn ki_new() -> (r: KeyIndex)
    ensures
        key_index_view(r) == ki_empty_map(),
{
    KeyIndex { inner: halfbrown::HashMap::new() }
}

/// Relies on halfbrown::SizedHashMap::with_capacity: reserves room but
/// holds no binding yet.
#[verifier::external_body]
fn ki_with_capacity(n: usize) -> (r: KeyIndex)
    ensures
        key_index_view(r) == ki_empty_map(),
{
    KeyIndex { inner: halfbrown::HashMap::with_capacity(n) }
}

/// Relies on halfbrown::SizedHashMap::insert: binds the key to the
/// value, replacing any earlier binding of the same key, on both of
/// the map's backing forms.
#[verifier::external_body]
fn ki_insert(m: &mut KeyIndex, k: &Vec<u8>, i: usize)
    ensures
        key_index_view(*final(m)) == key_index_view(*old(m)).insert(k@, i),
{
    m.inner.insert(k.clone(), i);
}

/// Relies on halfbrown::SizedHashMap::get: returns the binding of the
/// key when one exists, and nothing otherwise.
#[verifier::external_body]
fn ki_get(m: &KeyIndex, k: &[u8]) -> (r: Option<usize>)
    ensures
        key_index_view(*m).dom().contains(k@) ==> r == Some(key_index_view(*m)[k@]),
        !key_index_view(*m).dom().contains(k@) ==> r is None,
{
    m.inner.get(k).copied()
}

impl ObjectMap {
    /// Every value the map's entries hold is itself well formed.
    pub closed spec fn values_wf(self) -> bool
        decreases self,
    {
        crate::value::entries_wf(self.entries@)
    }
}

/// The values of an object are well formed exactly when each entry's
/// value is.
pub proof fn lemma_values_wf(m: ObjectMap)
    ensures
        m.values_wf() <==> (forall|i: int|
            0 <= i < m@.len() ==> crate::value::value_wf(#[trigger] m@[i].1)),
{
    crate::value::lemma_entries_wf(m@);
}

/// The entry list sits below the map that holds it, for the
/// termination of specs and code that walk the value tree.
pub proof fn lemma_map_view_decreases(m: ObjectMap)
    ensures
        decreases_to!(m => m@),
{
    assert(decreases_to!(m => m.entries));
    assert(decreases_to!(m.entries => m.entries@));
}

/// The value an entry list binds `k` to: the one of the last entry
/// carrying it.
pub open spec fn lookup(es: Seq<(Vec<u8>, Value)>, k: Seq<u8>) -> Value {
    es[last_key_index(es, k)].1
}

/// An entry's value sits below the map that holds it, for the
/// termination of specs and code that walk the value tree.
pub proof fn lemma_entry_decreases(m: ObjectMap, i: int)
    requires
        0 <= i < m@.len(),
    ensures
        decreases_to!(m => m@[i].1),
{
    assert(decreases_to!(m => m.entries));
    assert(decreases_to!(m.entries => m.entries@));
    assert(decreases_to!(m.entries@ => m.entries@[i]));
    assert(decreases_to!(m.entries@[i] => m.entries@[i].1));
}

/// Key positions depend on the keys alone: two entry lists with the
/// same keys bind every key at the same position.
pub proof fn lemma_keys_determine_index(
    es1: Seq<(Vec<u8>, Value)>,
    es2: Seq<(Vec<u8>, Value)>,
    k: Seq<u8>,
)
    requires
        es1.len() == es2.len(),
        forall|i: int| 0 <= i < es1.len() ==> (#[trigger] es1[i].0@) == es2[i].0@,
    ensures
        last_key_index(es1, k) == last_key_index(es2, k),
        has_key(es1, k) == has_key(es2, k),
    decreases es1.len(),
{
    if es1.len() > 0 {
        assert(es1[es1.len() - 1].0@ == es2[es2.len() - 1].0@);
        assert forall|i: int|
            0 <= i < es1.drop_last().len() implies (#[trigger] es1.drop_last()[i].0@)
            == es2.drop_last()[i].0@ by {
            assert(es1.drop_last()[i] == es1[i]);
            assert(es2.drop_last()[i] == es2[i]);
        }
        lemma_keys_determine_index(es1.drop_last(), es2.drop_last(), k);
    }
    lemma_last_key_index_props(es1, k);
    lemma_last_key_index_props(es2, k);
}

/// Whether some entry of `es` carries the key `k`.
pub open spec fn has_key(es: Seq<(Vec<u8>, Value)>, k: Seq<u8>) -> bool {
    exists|i: int| 0 <= i < es.len() && es[i].0@ == k
}

/// Position of the last entry carrying `k`, or -1 when there is none.
/// Lookup goes by the last entry, so a repeated key reads as its
/// latest value while every pair stays in the entry list.
pub open spec fn last_key_index(es: Seq<(Vec<u8>, Value)>, k: Seq<u8>) -> int
    decreases es.len(),
{
    if es.len() == 0 {
        -1
    } else if es.last().0@ == k {
        es.len() - 1
    } else {
        last_key_index(es.drop_last(), k)
    }
}

pub proof fn lemma_last_key_index_props(es: Seq<(Vec<u8>, Value)>, k: Seq<u8>)
    ensures
        has_key(es, k) <==> last_key_index(es, k) >= 0,
        has_key(es, k) ==> last_key_index(es, k) < es.len() && es[last_key_index(es, k)].0@ == k,
    decreases es.len(),
{
    if es.len() > 0 {
        lemma_last_key_index_props(es.drop_last(), k);
        if es.last().0@ == k {
            assert(es[es.len() - 1].0@ == k);
        } else {
            assert forall|i: int| 0 <= i < es.len() && es[i].0@ == k implies 0 <= i < es.len()
                - 1 by {
                assert(es[es.len() - 1].0@ != k);
            }
            assert(has_key(es, k) ==> has_key(es.drop_last(), k)) by {
                if has_key(es, k) {
                    let i = choose|i: int| 0 <= i < es.len() && es[i].0@ == k;
                    assert(es.drop_last()[i] == es[i]);
                }
            }
            if has_key(es.drop_last(), k) {
                let i = choose|i: int| 0 <= i < es.drop_last().len() && es.drop_last()[i].0@ == k;
                assert(es[i] == es.drop_last()[i]);
            }
        }
    }
}

pub proof fn lemma_last_key_index_push(es: Seq<(Vec<u8>, Value)>, p: (Vec<u8>, Value), k: Seq<u8>)
    ensures
        p.0@ == k ==> last_key_index(es.push(p), k) == es.len(),
        p.0@ != k ==> last_key_index(es.push(p), k) == last_key_index(es, k),
        has_key(es.push(p), k) <==> (p.0@ == k || has_key(es, k)),
{
    let e2 = es.push(p);
    assert(e2.last() == p);
    assert(e2.drop_last() =~= es);
    if p.0@ != k {
        if has_key(es, k) {
            let i = choose|i: int| 0 <= i < es.len() && es[i].0@ == k;
            assert(e2[i] == es[i]);
        }
        if has_key(e2, k) {
            let i = choose|i: int| 0 <= i < e2.len() && e2[i].0@ == k;
            assert(i < es.len());
            assert(es[i] == e2[i]);
        }
    } else {
        assert(e2[es.len() as int].0@ == k);
    }
}

/// An insertion-order-preserving mapping from byte-string keys to
/// values. Every inserted pair is kept, in order, in the entry list;
/// a halfbrown map indexes each key to its latest position so lookup
/// does not rescan the entries.
pub struct ObjectMap {
    entries: Vec<(Vec<u8>, Value)>,
    index: KeyIndex,
}

impl View for ObjectMap {
    type V = Seq<(Vec<u8>, Value)>;

    /// The pairs the object holds, in insertion order.
    closed spec fn view(&self) -> Seq<(Vec<u8>, Value)> {
        self.entries@
    }
}

impl ObjectMap {
    /// The key index agrees with the entry list: it binds exactly the
    /// keys that occur, each to its last position.
    pub closed spec fn wf(self) -> bool {
        &&& forall|k: Seq<u8>|
            #[trigger] key_index_view(self.index).dom().contains(k) <==> has_key(self@, k)
        &&& forall|k: Seq<u8>|
            has_key(self@, k) ==> #[trigger] key_index_view(self.index)[k] == last_key_index(self@, k)
    }

    /// An empty object.
    pub fn new() -> (r: ObjectMap)
        ensures
            r.wf(),
            r@ == Seq::<(Vec<u8>, Value)>::empty(),
    {
        ObjectMap { entries: Vec::new(), index: ki_new() }
    }

    /// An empty object with room for `n` pairs.
    pub fn with_capacity(n: usize) -> (r: ObjectMap)
        ensures
            r.wf(),
            r@ == Seq::<(Vec<u8>, Value)>::empty(),
    {
        ObjectMap { entries: Vec::with_capacity(n), index: ki_with_capacity(n) }
    }

    /// Number of pairs held; a repeated key counts once per pair
    /// that carries it.
    pub fn len(&self) -> (r: usize)
        ensures
            r == self@.len(),
    {
        self.entries.len()
    }

    /// True when no pair is held.
    pub fn is_empty(&self) -> (r: bool)
        ensures
            r == (self@.len() == 0),
    {
        self.entries.len() == 0
    }

    /// Appends a pair and points the key index at it.
    pub fn insert(&mut self, k: Vec<u8>, v: Value)
        requires
            old(self).wf(),
        ensures
            final(self).wf(),
            final(self)@ == old(self)@.push((k, v)),
    {
        let ghost old_es = self.entries@;
        let n = self.entries.len();
        ki_insert(&mut self.index, &k, n);
        self.entries.push((k, v));
        proof {
            let p = (k, v);
            assert(key_index_view(self.index) == key_index_view(old(self).index).insert(k@, n));
            assert(self@ == old_es.push(p));
            assert forall|k2: Seq<u8>|
                #[trigger] key_index_view(self.index).dom().contains(k2) <==> has_key(
                    self@,
                    k2,
                ) by {
                lemma_last_key_index_push(old_es, p, k2);
            }
            assert forall|k2: Seq<u8>| has_key(self@, k2) implies #[trigger] key_index_view(
                self.index,
            )[k2] == last_key_index(self@, k2) by {
                lemma_last_key_index_push(old_es, p, k2);
                lemma_last_key_index_props(old_es, k2);
            }
        }
    }

    /// The value bound to `k`: the one of the last pair carrying it.
    pub fn get(&self, k: &[u8]) -> (r: Option<&Value>)
        requires
            self.wf(),
        ensures
            match r {
                Some(v) => has_key(self@, k@) && *v == self@[last_key_index(self@, k@)].1,
                None => !has_key(self@, k@),
            },
    {
        match ki_get(&self.index, k) {
            Some(i) => {
                proof {
                    assert(key_index_view(self.index).dom().contains(k@));
                    assert(has_key(self@, k@));
                    lemma_last_key_index_props(self@, k@);
                    assert(i == last_key_index(self@, k@));
                }
                let p = vstd::std_specs::vec::vec_index(&self.entries, i);
                Some(&p.1)
            },
            None => None,
        }
    }

    /// Mutable access to the value bound to `k`: the last pair
    /// carrying the key, whose value becomes whatever the caller
    /// leaves behind the borrow. The keys are untouched, so the map
    /// stays well formed.
    pub fn get_mut(&mut self, k: &[u8]) -> (r: Option<&mut Value>)
        requires
            old(self).wf(),
        ensures
            match r {
                Some(p) => has_key(old(self)@, k@) && *p == lookup(old(self)@, k@)
                    && final(self)@ == old(self)@.update(
                    last_key_index(old(self)@, k@),
                    (old(self)@[last_key_index(old(self)@, k@)].0, *final(p)),
                ) && final(self).wf(),
                None => !has_key(old(self)@, k@) && *final(self) == *old(self),
            },
    {
        match ki_get(&self.index, k) {
            Some(i) => {
                proof {
                    assert(key_index_view(self.index).dom().contains(k@));
                    assert(has_key(self@, k@));
                    lemma_last_key_index_props(self@, k@);
                    assert(i == last_key_index(self@, k@));
                }
                let ghost old_es = self.entries@;
                let ghost key0 = self.entries@[i as int].0;
                proof {
                    assert forall|nv: Value, k2: Seq<u8>|
                        #![trigger has_key(old_es.update(i as int, (key0, nv)), k2)]
                        ({
                            let ues = old_es.update(i as int, (key0, nv));
                            &&& (key_index_view(self.index).dom().contains(k2) <==> has_key(
                                ues,
                                k2,
                            ))
                            &&& (has_key(ues, k2) ==> key_index_view(self.index)[k2]
                                == last_key_index(ues, k2))
                        }) by {
                        let ues = old_es.update(i as int, (key0, nv));
                        assert forall|j: int|
                            0 <= j < old_es.len() implies (#[trigger] old_es[j].0@)
                            == ues[j].0@ by {
                        }
                        lemma_keys_determine_index(old_es, ues, k2);
                    }
                }
                let p = vstd::std_specs::vec::vec_index_mut(&mut self.entries, i);
                Some(&mut p.1)
            },
            None => None,
        }
    }

    /// The key of the `i`-th pair, in insertion order.
    pub fn key_at(&self, i: usize) -> (r: &Vec<u8>)
        requires
            i < self@.len(),
        ensures
            *r == self@[i as int].0,
    {
        let p = vstd::std_specs::vec::vec_index(&self.entries, i);
        &p.0
    }

    /// The value of the `i`-th pair, in insertion order.
    pub fn value_at(&self, i: usize) -> (r: &Value)
        requires
            i < self@.len(),
        ensures
            *r == self@[i as int].1,
    {
        let p = vstd::std_specs::vec::vec_index(&self.entries, i);
        &p.1
    }
}

} // verus!
