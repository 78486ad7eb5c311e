//! A string-keyed mapping with unique keys, kept as an association list so
//! that every operation has a full functional specification.
//!
//! The project owns all cross-module references by name; this map is the
//! shared owner that resolves them.

use vstd::prelude::*;

verus! {

/// No key occurs twice in `keys`.
pub open spec fn distinct_keys(keys: Seq<Seq<char>>) -> bool {
    forall|i: int, j: int| 0 <= i < j < keys.len() ==> keys[i] != keys[j]
}

/// The mathematical map holding `vals[i]` at `keys[i]`; later entries win.
pub open spec fn map_of<V>(keys: Seq<Seq<char>>, vals: Seq<V>) -> Map<Seq<char>, V>
    decreases keys.len(),
{
    if keys.len() == 0 || vals.len() == 0 {
        Map::empty()
    } else {
        map_of(keys.drop_last(), vals.drop_last()).insert(keys.last(), vals.last())
    }
}

/// How `map_of` relates to its entry lists when the keys are distinct.
pub proof fn lemma_map_of_props<V>(keys: Seq<Seq<char>>, vals: Seq<V>)
    requires
        keys.len() == vals.len(),
        distinct_keys(keys),
    ensures
        forall|i: int|
            0 <= i < keys.len() ==> #[trigger] map_of(keys, vals).contains_key(keys[i]),
        forall|i: int| 0 <= i < keys.len() ==> map_of(keys, vals)[#[trigger] keys[i]] == vals[i],
        forall|k: Seq<char>|
            #[trigger] map_of(keys, vals).contains_key(k) ==> exists|i: int|
                0 <= i < keys.len() && keys[i] == k,
    decreases keys.len(),
{
    if keys.len() > 0 {
        let kp = keys.drop_last();
        let vp = vals.drop_last();
        lemma_map_of_props(kp, vp);
        let m = map_of(keys, vals);
        assert forall|i: int| 0 <= i < keys.len() implies #[trigger] m.contains_key(keys[i]) by {
            if i < keys.len() - 1 {
                assert(kp[i] == keys[i]);
                assert(keys[i] != keys.last());
                assert(map_of(kp, vp).contains_key(kp[i]));
            }
        }
        assert forall|i: int| 0 <= i < keys.len() implies m[#[trigger] keys[i]] == vals[i] by {
            if i < keys.len() - 1 {
                assert(kp[i] == keys[i]);
                assert(keys[i] != keys.last());
                assert(map_of(kp, vp).contains_key(kp[i]));
                assert(map_of(kp, vp)[kp[i]] == vp[i]);
            }
        }
        assert forall|k: Seq<char>| #[trigger] m.contains_key(k) implies exists|i: int|
            0 <= i < keys.len() && keys[i] == k by {
            if k != keys.last() {
                assert(map_of(kp, vp).contains_key(k));
                let i = choose|i: int| 0 <= i < kp.len() && kp[i] == k;
                assert(keys[i] == k);
            } else {
                assert(keys[keys.len() - 1] == k);
            }
        }
    }
}

/// Removing entry `i` from the lists removes `keys[i]` from the map.
pub proof fn lemma_map_of_remove<V>(keys: Seq<Seq<char>>, vals: Seq<V>, i: int)
    requires
        keys.len() == vals.len(),
        distinct_keys(keys),
        0 <= i < keys.len(),
    ensures
        map_of(keys.remove(i), vals.remove(i)) == map_of(keys, vals).remove(keys[i]),
{
    let kr = keys.remove(i);
    let vr = vals.remove(i);
    assert forall|p: int, q: int| 0 <= p < q < kr.len() implies kr[p] != kr[q] by {
        let p0 = if p < i { p } else { p + 1 };
        let q0 = if q < i { q } else { q + 1 };
        assert(kr[p] == keys[p0] && kr[q] == keys[q0]);
    }
    lemma_map_of_props(keys, vals);
    lemma_map_of_props(kr, vr);
    let m1 = map_of(kr, vr);
    let m2 = map_of(keys, vals).remove(keys[i]);
    assert forall|k: Seq<char>| #[trigger] m1.contains_key(k) implies m2.contains_key(k)
        && m1[k] == m2[k] by {
        let j = choose|j: int| 0 <= j < kr.len() && kr[j] == k;
        let j0 = if j < i { j } else { j + 1 };
        assert(kr[j] == keys[j0]);
        assert(m1[k] == vr[j] && vr[j] == vals[j0]);
        assert(k != keys[i]);
    }
    assert forall|k: Seq<char>| #[trigger] m2.contains_key(k) implies m1.contains_key(k) by {
        let j0 = choose|j0: int| 0 <= j0 < keys.len() && keys[j0] == k;
        assert(j0 != i);
        let j = if j0 < i { j0 } else { j0 - 1 };
        assert(kr[j] == keys[j0]);
    }
    assert(m1 =~= m2);
}

/// Replacing `vals[i]` replaces the value at `keys[i]` in the map.
pub proof fn lemma_map_of_update<V>(keys: Seq<Seq<char>>, vals: Seq<V>, i: int, v: V)
    requires
        keys.len() == vals.len(),
        distinct_keys(keys),
        0 <= i < keys.len(),
    ensures
        map_of(keys, vals.update(i, v)) == map_of(keys, vals).insert(keys[i], v),
{
    let vu = vals.update(i, v);
    lemma_map_of_props(keys, vals);
    lemma_map_of_props(keys, vu);
    let m1 = map_of(keys, vu);
    let m2 = map_of(keys, vals).insert(keys[i], v);
    assert forall|k: Seq<char>| #[trigger] m1.contains_key(k) implies m2.contains_key(k)
        && m1[k] == m2[k] by {
        let j = choose|j: int| 0 <= j < keys.len() && keys[j] == k;
        assert(m1[k] == vu[j]);
        if j != i {
            assert(vu[j] == vals[j]);
            assert(k != keys[i]);
        }
    }
    assert forall|k: Seq<char>| #[trigger] m2.contains_key(k) implies m1.contains_key(k) by {
        if k == keys[i] {
            assert(m1.contains_key(keys[i]));
        } else {
            let j = choose|j: int| 0 <= j < keys.len() && keys[j] == k;
            assert(m1.contains_key(keys[j]));
        }
    }
    assert(m1 =~= m2);
}

/// An ordered association list from strings to values of type `V`, with
/// no key occurring twice.
pub struct StrMap<V> {
    entries: Vec<(String, V)>,
}

impl<V> View for StrMap<V> {
    type V = Map<Seq<char>, V>;

    open spec fn view(&self) -> Map<Seq<char>, V> {
        map_of(self.keys(), self.vals())
    }
}

impl<V> StrMap<V> {
    /// The key views, in entry order.
    pub closed spec fn keys(&self) -> Seq<Seq<char>> {
        self.entries@.map_values(|e: (String, V)| e.0@)
    }

    /// The values, in entry order.
    pub closed spec fn vals(&self) -> Seq<V> {
        self.entries@.map_values(|e: (String, V)| e.1)
    }

    /// Well-formed: no key occurs twice.
    pub open spec fn wf(&self) -> bool {
        distinct_keys(self.keys())
    }

    /// The map, its entry lists and their distinctness, connected.
    pub proof fn lemma_view(&self)
        requires
            self.wf(),
        ensures
            self.keys().len() == self.vals().len(),
            forall|i: int| 0 <= i < self.keys().len() ==> #[trigger] self@.contains_key(
                self.keys()[i],
            ),
            forall|i: int| 0 <= i < self.keys().len() ==> self@[#[trigger] self.keys()[i]]
                == self.vals()[i],
            forall|k: Seq<char>| #[trigger] self@.contains_key(k) ==> exists|i: int|
                0 <= i < self.keys().len() && self.keys()[i] == k,
    {
        lemma_map_of_props(self.keys(), self.vals());
    }

    /// An empty map.
    pub fn new() -> (r: Self)
        ensures
            r.wf(),
            r.keys() == Seq::<Seq<char>>::empty(),
            r.vals() == Seq::<V>::empty(),
            r@ == Map::<Seq<char>, V>::empty(),
    {
        StrMap { entries: Vec::new() }
    }

    /// The number of entries.
    pub fn len(&self) -> (r: usize)
        ensures
            r == self.keys().len(),
            r == self.vals().len(),
    {
        self.entries.len()
    }

    /// The key of entry `i`.
    pub fn key_at(&self, i: usize) -> (r: &String)
        requires
            i < self.keys().len(),
        ensures
            r@ == self.keys()[i as int],
    {
        &self.entries[i].0
    }

    /// The value of entry `i`.
    pub fn val_at(&self, i: usize) -> (r: &V)
        requires
            i < self.vals().len(),
        ensures
            *r == self.vals()[i as int],
    {
        &self.entries[i].1
    }

    /// The entry index holding key `k`, if any.
    pub fn index_of(&self, k: &String) -> (r: Option<usize>)
        ensures
            match r {
                Some(i) => i < self.keys().len() && self.keys()[i as int] == k@,
                None => forall|i: int| 0 <= i < self.keys().len() ==> self.keys()[i] != k@,
            },
    {
        let n = self.entries.len();
        let mut i: usize = 0;
        while i < n
            invariant
                n == self.keys().len(),
                0 <= i <= n,
                forall|j: int| 0 <= j < i ==> self.keys()[j] != k@,
            decreases n - i,
        {
            if self.entries[i].0 == *k {
                return Some(i);
            }
            i = i + 1;
        }
        None
    }

    /// Whether `k` is a key of the map.
    pub fn contains_key(&self, k: &String) -> (r: bool)
        requires
            self.wf(),
        ensures
            r == self@.contains_key(k@),
    {
        proof {
            self.lemma_view();
        }
        match self.index_of(k) {
            Some(_) => true,
            None => false,
        }
    }

    /// The value at key `k`, if any.
    pub fn get(&self, k: &String) -> (r: Option<&V>)
        requires
            self.wf(),
        ensures
            match r {
                Some(v) => self@.contains_key(k@) && *v == self@[k@],
                None => !self@.contains_key(k@),
            },
    {
        proof {
            self.lemma_view();
        }
        match self.index_of(k) {
            Some(i) => Some(&self.entries[i].1),
            None => None,
        }
    }

    /// Binds `k` to `v`, replacing any earlier binding; a replaced key moves
    /// to the end of the entry order.
    pub fn insert(&mut self, k: String, v: V)
        requires
            old(self).wf(),
        ensures
            final(self).wf(),
            final(self)@ == old(self)@.insert(k@, v),
            final(self).keys().last() == k@,
            final(self).vals().last() == v,
            !old(self)@.contains_key(k@) ==> {
                &&& final(self).keys() == old(self).keys().push(k@)
                &&& final(self).vals() == old(self).vals().push(v)
            },
    {
        proof {
            self.lemma_view();
        }
        match self.index_of(&k) {
            Some(i) => {
                proof {
                    lemma_map_of_remove(self.keys(), self.vals(), i as int);
                }
                let ghost oldkeys = self.keys();
                self.entries.remove(i);
                proof {
                    assert(self.keys() =~= oldkeys.remove(i as int));
                    assert(self.vals() =~= old(self).vals().remove(i as int));
                    assert forall|p: int, q: int|
                        0 <= p < q < self.keys().len() implies self.keys()[p]
                        != self.keys()[q] by {
                        let p0 = if p < i { p } else { p + 1 };
                        let q0 = if q < i { q } else { q + 1 };
                        assert(self.keys()[p] == oldkeys[p0] && self.keys()[q] == oldkeys[q0]);
                    }
                }
                let ghost midkeys = self.keys();
                let ghost midvals = self.vals();
                let ghost midmap = self@;
                self.entries.push((k, v));
                proof {
                    assert(self.keys() =~= midkeys.push(k@));
                    assert(self.vals() =~= midvals.push(v));
                    assert(self.keys().drop_last() =~= midkeys);
                    assert(self.vals().drop_last() =~= midvals);
                    assert(self.keys().last() == k@);
                    assert forall|p: int, q: int|
                        0 <= p < q < self.keys().len() implies self.keys()[p]
                        != self.keys()[q] by {
                        if q == self.keys().len() - 1 {
                            assert(midkeys[p] == oldkeys[if p < i {
                                p
                            } else {
                                p + 1
                            }]);
                        }
                    }
                    assert(self@ == midmap.insert(k@, v));
                    assert(self@ =~= old(self)@.insert(k@, v));
                }
            },
            None => {
                self.entries.push((k, v));
                proof {
                    assert(self.keys() =~= old(self).keys().push(k@));
                    assert(self.vals() =~= old(self).vals().push(v));
                    assert(self.keys().drop_last() =~= old(self).keys());
                    assert(self.vals().drop_last() =~= old(self).vals());
                    assert(self.keys().last() == k@);
                    assert forall|p: int, q: int|
                        0 <= p < q < self.keys().len() implies self.keys()[p]
                        != self.keys()[q] by {
                        if q == self.keys().len() - 1 {
                            assert(old(self).keys()[p] != k@);
                        }
                    }
                }
            },
        }
    }
}

impl StrMap<Vec<String>> {
    /// Appends `x` to the list bound at entry `i`.
    pub fn push_at(&mut self, i: usize, x: String)
        requires
            old(self).wf(),
            i < old(self).vals().len(),
        ensures
            final(self).wf(),
            final(self).keys() == old(self).keys(),
            final(self).vals().len() == old(self).vals().len(),
            final(self).vals()[i as int]@ == old(self).vals()[i as int]@.push(x),
            forall|j: int|
                0 <= j < final(self).vals().len() && j != i ==> final(self).vals()[j] == old(
                    self,
                ).vals()[j],
            final(self)@ == old(self)@.insert(
                old(self).keys()[i as int],
                final(self).vals()[i as int],
            ),
    {
        self.entries[i].1.push(x);
        proof {
            assert(self.keys() =~= old(self).keys());
            assert(self.vals() =~= old(self).vals().update(i as int, self.vals()[i as int]));
            lemma_map_of_update(
                old(self).keys(),
                old(self).vals(),
                i as int,
                self.vals()[i as int],
            );
        }
    }
}

} // verus!
