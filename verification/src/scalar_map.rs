//! A map from scalars to machine integers that remembers the order in which
//! its keys came.
//!
//! The keys are kept in a vector, in the order of their first insertion; a
//! hash map from the low limb of a key to the positions of the keys with that
//! limb finds a key again.
use vstd::prelude::*;
use crate::field::{limb_of, scalars_view, Scalar};
use std::collections::HashMap;

verus! {

broadcast use vstd::std_specs::hash::group_hash_axioms;

/// A position at which `k` stands in `keys`.
pub open spec fn position(keys: Seq<nat>, k: nat) -> int {
    choose|i: int| 0 <= i < keys.len() && keys[i] == k
}

/// No entry occurs twice.
pub open spec fn distinct(keys: Seq<nat>) -> bool {
    forall|i: int, j: int| 0 <= i < j < keys.len() ==> keys[i] != keys[j]
}

/// A map from scalars to machine integers.
pub struct ScalarMap {
    keys: Vec<Scalar>,
    values: Vec<usize>,
    slots: HashMap<u64, Vec<usize>>,
}

impl View for ScalarMap {
    type V = Map<nat, usize>;

    open spec fn view(&self) -> Map<nat, usize> {
        Map::new(
            |k: nat| self.spec_keys().contains(k),
            |k: nat| self.spec_values()[position(self.spec_keys(), k)],
        )
    }
}

impl ScalarMap {
    /// The keys, in the order of their first insertion.
    pub closed spec fn spec_keys(self) -> Seq<nat> {
        scalars_view(self.keys@)
    }

    /// The values, each at the position of its key.
    pub closed spec fn spec_values(self) -> Seq<usize> {
        self.values@
    }

    /// The positions filed under a low limb point at keys with that limb.
    spec fn slots_sound(self) -> bool {
        forall|low: u64, q: int|
            #![trigger self.slots@[low]@[q]]
            self.slots@.contains_key(low) && 0 <= q < self.slots@[low]@.len() ==> {
                &&& self.slots@[low]@[q] < self.keys@.len()
                &&& limb_of(self.keys@[self.slots@[low]@[q] as int]@, 0) == low
            }
    }

    /// Every key's position is filed under the key's low limb.
    spec fn slots_complete(self) -> bool {
        forall|p: int|
            0 <= p < self.keys@.len() ==> {
                &&& self.slots@.contains_key(#[trigger] limb_of(self.keys@[p]@, 0))
                &&& self.slots@[limb_of(self.keys@[p]@, 0)]@.contains(p as usize)
            }
    }

    /// The keys are distinct, each has a value, and the index finds them.
    pub closed spec fn wf(self) -> bool {
        &&& self.keys@.len() == self.values@.len()
        &&& distinct(scalars_view(self.keys@))
        &&& self.slots_sound()
        &&& self.slots_complete()
    }

    /// What validity says of keys and values.
    pub proof fn lemma_wf(self)
        requires
            self.wf(),
        ensures
            self.spec_keys().len() == self.spec_values().len(),
            distinct(self.spec_keys()),
            forall|i: int|
                0 <= i < self.spec_keys().len() ==> self@.contains_key(
                    #[trigger] self.spec_keys()[i],
                ) && self@[self.spec_keys()[i]] == self.spec_values()[i],
            forall|k: nat| self@.contains_key(k) <==> self.spec_keys().contains(k),
    {
        let keys = self.spec_keys();
        assert forall|i: int| 0 <= i < keys.len() implies self@.contains_key(#[trigger] keys[i])
            && self@[keys[i]] == self.spec_values()[i] by {
            assert(keys.contains(keys[i]));
            let p = position(keys, keys[i]);
            assert(p == i);
        }
    }

    /// The map without keys.
    pub fn new() -> (r: ScalarMap)
        ensures
            r.wf(),
            r.spec_keys().len() == 0,
            r.spec_values().len() == 0,
            r@ == Map::<nat, usize>::empty(),
    {
        let r = ScalarMap { keys: Vec::new(), values: Vec::new(), slots: HashMap::new() };
        proof {
            assert(r@ =~= Map::<nat, usize>::empty());
        }
        r
    }

    /// The number of keys.
    pub fn len(&self) -> (r: usize)
        requires
            self.wf(),
        ensures
            r == self.spec_keys().len(),
            r == self.spec_values().len(),
    {
        self.keys.len()
    }

    /// The key at position `i`.
    pub fn key_at(&self, i: usize) -> (r: Scalar)
        requires
            self.wf(),
            i < self.spec_keys().len(),
        ensures
            r@ == self.spec_keys()[i as int],
    {
        self.keys[i]
    }

    /// The value at position `i`.
    pub fn value_at(&self, i: usize) -> (r: usize)
        requires
            self.wf(),
            i < self.spec_keys().len(),
        ensures
            r == self.spec_values()[i as int],
    {
        self.values[i]
    }

    /// The position of `k` among the keys, if it is one.
    fn find(&self, k: &Scalar) -> (r: Option<usize>)
        requires
            self.wf(),
        ensures
            match r {
                Some(p) => p < self.keys@.len() && self.keys@[p as int]@ == k@,
                None => !self.spec_keys().contains(k@),
            },
    {
        let low = k.to_limbs()[0];
        let n = self.keys.len();
        proof {
            k.lemma_view();
            assert(low == limb_of(k@, 0));
        }
        match self.slots.get(&low) {
            None => {
                proof {
                    if self.spec_keys().contains(k@) {
                        let p = position(self.spec_keys(), k@);
                        assert(self.spec_keys()[p] == self.keys@[p]@);
                        assert(limb_of(self.keys@[p]@, 0) == low);
                        assert(self.slots@.contains_key(low));
                    }
                    assert(!self.spec_keys().contains(k@));
                }
                None
            },
            Some(bucket) => {
                let mut q: usize = 0;
                while q < bucket.len()
                    invariant
                        q <= bucket.len(),
                        n == self.keys@.len(),
                        self.wf(),
                        self.slots@.contains_key(low),
                        *bucket == self.slots@[low],
                        forall|q2: int|
                            0 <= q2 < q ==> self.keys@[(#[trigger] bucket@[q2]) as int]@ != k@,
                    decreases bucket.len() - q,
                {
                    let p = bucket[q];
                    assert(self.slots@[low]@[q as int] < self.keys@.len());
                    if self.keys[p].eq(k) {
                        return Some(p);
                    }
                    q += 1;
                }
                proof {
                    if self.spec_keys().contains(k@) {
                        let p = position(self.spec_keys(), k@);
                        assert(self.spec_keys()[p] == self.keys@[p]@);
                        assert(limb_of(self.keys@[p]@, 0) == low);
                        let pu = p as usize;
                        assert(bucket@.contains(pu));
                        let q2 = choose|q2: int| 0 <= q2 < bucket@.len() && bucket@[q2] == pu;
                        assert(self.keys@[bucket@[q2] as int]@ != k@);
                    }
                    assert(!self.spec_keys().contains(k@));
                }
                None
            },
        }
    }

    /// The value of `k`, if it is a key.
    pub fn get(&self, k: &Scalar) -> (r: Option<usize>)
        requires
            self.wf(),
        ensures
            r == if self@.contains_key(k@) {
                Some(self@[k@])
            } else {
                None
            },
    {
        match self.find(k) {
            Some(p) => {
                proof {
                    self.lemma_wf();
                    assert(self.spec_keys()[p as int] == k@);
                }
                Some(self.values[p])
            },
            None => None,
        }
    }

    /// Whether `k` is a key.
    pub fn contains_key(&self, k: &Scalar) -> (r: bool)
        requires
            self.wf(),
        ensures
            r == self@.contains_key(k@),
    {
        let found = self.find(k);
        proof {
            self.lemma_wf();
            if found is Some {
                assert(self.spec_keys()[found->0 as int] == k@);
            }
        }
        found.is_some()
    }

    /// Gives `k` the value `v`: a new key goes behind the others, a known
    /// one keeps its position.
    pub fn insert(&mut self, k: Scalar, v: usize)
        requires
            old(self).wf(),
        ensures
            final(self).wf(),
            final(self)@ == old(self)@.insert(k@, v),
            old(self)@.contains_key(k@) ==> final(self).spec_keys() == old(self).spec_keys(),
            old(self)@.contains_key(k@) ==> final(self).spec_values() == old(self).spec_values().update(position(old(self).spec_keys(), k@), v),
            !old(self)@.contains_key(k@) ==> final(self).spec_keys() == old(self).spec_keys().push(
                k@,
            ),
            !old(self)@.contains_key(k@) ==> final(self).spec_values() == old(self).spec_values().push(v),
    {
        let ghost before = *self;
        proof {
            before.lemma_wf();
        }
        match self.find(&k) {
            Some(p) => {
                self.values[p] = v;
                proof {
                    let keys = self.spec_keys();
                    assert(keys[p as int] == k@);
                    assert(position(keys, k@) == p);
                    assert(self.slots_sound());
                    assert(self.slots_complete());
                    assert forall|x: nat| #[trigger]
                        self@.contains_key(x) implies self@[x] == before@.insert(k@, v)[x] by {
                        if x != k@ {
                            assert(position(keys, x) != p);
                        }
                    }
                    assert(self@ =~= before@.insert(k@, v));
                }
            },
            None => {
                let p = self.keys.len();
                let low = k.to_limbs()[0];
                proof {
                    k.lemma_view();
                }
                let mut bucket = match self.slots.remove(&low) {
                    Some(b) => b,
                    None => Vec::new(),
                };
                let ghost old_bucket = bucket@;
                self.keys.push(k);
                self.values.push(v);
                bucket.push(p);
                self.slots.insert(low, bucket);
                proof {
                    let keys = self.spec_keys();
                    assert(keys =~= before.spec_keys().push(k@));
                    assert(distinct(keys)) by {
                        assert forall|i: int, j: int| 0 <= i < j < keys.len() implies keys[i]
                            != keys[j] by {
                            if j == p {
                                assert(before.spec_keys().contains(keys[i]));
                            }
                        }
                    }
                    assert(self.slots_sound()) by {
                        assert forall|l: u64, q: int|
                            #![trigger self.slots@[l]@[q]]
                            self.slots@.contains_key(l) && 0 <= q < self.slots@[l]@.len() implies {
                            &&& self.slots@[l]@[q] < self.keys@.len()
                            &&& limb_of(self.keys@[self.slots@[l]@[q] as int]@, 0) == l
                        } by {
                            if l == low {
                                if q < old_bucket.len() {
                                    assert(before.slots@.contains_key(low));
                                    assert(self.slots@[l]@[q] == before.slots@[low]@[q]);
                                }
                            } else {
                                assert(before.slots@.contains_key(l));
                                assert(self.slots@[l]@[q] == before.slots@[l]@[q]);
                            }
                        }
                    }
                    assert(self.slots_complete()) by {
                        assert forall|i: int| 0 <= i < self.keys@.len() implies {
                            &&& self.slots@.contains_key(#[trigger] limb_of(self.keys@[i]@, 0))
                            &&& self.slots@[limb_of(self.keys@[i]@, 0)]@.contains(i as usize)
                        } by {
                            let l = limb_of(self.keys@[i]@, 0);
                            if i < p {
                                assert(before.keys@[i] == self.keys@[i]);
                                assert(before.slots@.contains_key(l));
                                assert(before.slots@[l]@.contains(i as usize));
                                let q = choose|q: int|
                                    0 <= q < before.slots@[l]@.len() && before.slots@[l]@[q]
                                        == i as usize;
                                if l == low {
                                    assert(self.slots@[l]@[q] == i as usize);
                                } else {
                                    assert(self.slots@[l]@[q] == i as usize);
                                }
                            } else {
                                assert(self.slots@[low]@[old_bucket.len() as int] == p);
                            }
                        }
                    }
                    assert forall|x: nat| #[trigger]
                        self@.contains_key(x) implies self@[x] == before@.insert(k@, v)[x] by {
                        let px = position(keys, x);
                        if x == k@ {
                            assert(keys[p as int] == k@);
                            assert(px == p);
                        } else {
                            assert(px != p);
                            assert(before.spec_keys()[px] == x);
                            assert(position(before.spec_keys(), x) == px);
                        }
                    }
                    assert forall|x: nat| before@.insert(k@, v).contains_key(x) implies #[trigger]
                        self@.contains_key(x) by {
                        if x == k@ {
                            assert(keys[p as int] == k@);
                        } else {
                            let px = position(before.spec_keys(), x);
                            assert(keys[px] == x);
                        }
                    }
                    assert(self@ =~= before@.insert(k@, v));
                }
            },
        }
    }
}

} // verus!
