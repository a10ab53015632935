//! The occurrence map of the lookup witness pass: counts keyed by
//! folded A-row values. Keys are field elements, which Verus sees only
//! through their canonical values, so the map is a short association
//! vector carrying its mathematical view alongside.
use vstd::prelude::*;
use crate::field::{Bls12_377Fr, fr_val, fr_eq};

verus! {

/// A multiset of canonical field values, stored as (key, count) pairs.
/// An entry whose count dropped to zero stays in the vector but is out
/// of the view.
pub(crate) struct OccMap {
    pub(crate) entries: Vec<(Bls12_377Fr, u64)>,
    pub(crate) m: Ghost<Map<nat, nat>>,
}

impl OccMap {
    /// The entries' keys are distinct and agree with the view: the
    /// entries with positive count are exactly the view's pairs.
    pub(crate) open spec fn wf(&self) -> bool {
        &&& forall|k1: int, k2: int|
            0 <= k1 < k2 < self.entries@.len() ==> fr_val(#[trigger] self.entries@[k1].0) != fr_val(
                #[trigger] self.entries@[k2].0,
            )
        &&& forall|k: int|
            0 <= k < self.entries@.len() && (#[trigger] self.entries@[k]).1 > 0 ==> self.m@.dom().contains(
                fr_val(self.entries@[k].0),
            ) && self.m@[fr_val(self.entries@[k].0)] == self.entries@[k].1 as nat
        &&& forall|v: nat|
            self.m@.dom().contains(v) ==> exists|k: int|
                0 <= k < self.entries@.len() && fr_val((#[trigger] self.entries@[k]).0) == v
                    && self.entries@[k].1 > 0
    }

    /// The mathematical content: canonical value to occurrence count.
    pub(crate) open spec fn view(&self) -> Map<nat, nat> {
        self.m@
    }

    /// The empty map.
    pub(crate) fn new() -> (r: Self)
        ensures
            r.wf(),
            r.view() == Map::<nat, nat>::empty(),
    {
        OccMap { entries: Vec::new(), m: Ghost(Map::empty()) }
    }

    /// The index of the entry holding `key`, if any.
    fn find(&self, key: Bls12_377Fr) -> (r: Option<usize>)
        ensures
            match r {
                Some(k) => 0 <= k < self.entries@.len() && fr_val(self.entries@[k as int].0)
                    == fr_val(key),
                None => forall|k: int|
                    0 <= k < self.entries@.len() ==> fr_val((#[trigger] self.entries@[k]).0)
                        != fr_val(key),
            },
    {
        let mut k: usize = 0;
        while k < self.entries.len()
            invariant
                0 <= k <= self.entries@.len(),
                forall|t: int|
                    0 <= t < k ==> fr_val((#[trigger] self.entries@[t]).0) != fr_val(key),
            decreases self.entries@.len() - k,
        {
            if fr_eq(self.entries[k].0, key) {
                return Some(k);
            }
            k = k + 1;
        }
        None
    }

    /// Adds one occurrence of `key`.
    pub(crate) fn bump(&mut self, key: Bls12_377Fr)
        requires
            old(self).wf(),
            old(self).view().dom().contains(fr_val(key)) ==> old(self).view()[fr_val(key)]
                < u64::MAX,
        ensures
            final(self).wf(),
            final(self).view() == old(self).view().insert(
                fr_val(key),
                if old(self).view().dom().contains(fr_val(key)) {
                    (old(self).view()[fr_val(key)] + 1) as nat
                } else {
                    1nat
                },
            ),
    {
        let ghost v = fr_val(key);
        match self.find(key) {
            Some(k) => {
                let cnt = self.entries[k].1;
                proof {
                    if cnt > 0 {
                        assert(self.m@.dom().contains(v) && self.m@[v] == cnt as nat);
                    } else {
                        // a consumed entry: the view cannot hold the key,
                        // since its witness would be a second entry
                        if self.m@.dom().contains(v) {
                            let k2 = choose|k2: int|
                                0 <= k2 < self.entries@.len() && fr_val(
                                    self.entries@[k2].0,
                                ) == v && self.entries@[k2].1 > 0;
                            assert(k2 != k as int);
                            assert(false);
                        }
                    }
                }
                let k0 = self.entries[k].0;
                self.entries.set(k, (k0, cnt + 1));
                proof {
                    self.m = Ghost(self.m@.insert(v, (cnt + 1) as nat));
                    assert forall|vv: nat| self.m@.dom().contains(vv) implies exists|t: int|
                        0 <= t < self.entries@.len() && fr_val((#[trigger] self.entries@[t]).0)
                            == vv && self.entries@[t].1 > 0 by {
                        if vv == v {
                            assert(fr_val(self.entries@[k as int].0) == vv
                                && self.entries@[k as int].1 > 0);
                        } else {
                            let t = choose|t: int|
                                0 <= t < old(self).entries@.len() && fr_val(
                                    old(self).entries@[t].0,
                                ) == vv && old(self).entries@[t].1 > 0;
                            assert(t != k as int);
                            assert(fr_val(self.entries@[t].0) == vv && self.entries@[t].1 > 0);
                        }
                    }
                }
            },
            None => {
                self.entries.push((key, 1));
                proof {
                    if self.m@.dom().contains(v) {
                        assert(false);
                    }
                    self.m = Ghost(self.m@.insert(v, 1nat));
                    assert forall|vv: nat| self.m@.dom().contains(vv) implies exists|t: int|
                        0 <= t < self.entries@.len() && fr_val((#[trigger] self.entries@[t]).0)
                            == vv && self.entries@[t].1 > 0 by {
                        if vv == v {
                            let last = self.entries@.len() - 1;
                            assert(fr_val(self.entries@[last].0) == vv
                                && self.entries@[last].1 > 0);
                        } else {
                            let t = choose|t: int|
                                0 <= t < old(self).entries@.len() && fr_val(
                                    old(self).entries@[t].0,
                                ) == vv && old(self).entries@[t].1 > 0;
                            assert(fr_val(self.entries@[t].0) == vv && self.entries@[t].1 > 0);
                        }
                    }
                }
            },
        }
    }

    /// Takes the count of `key` out of the map: returns it and removes
    /// the key, or returns `None` when the key is not present.
    pub(crate) fn consume(&mut self, key: Bls12_377Fr) -> (r: Option<u64>)
        requires
            old(self).wf(),
        ensures
            final(self).wf(),
            match r {
                Some(c) => {
                    &&& old(self).view().dom().contains(fr_val(key))
                    &&& c as nat == old(self).view()[fr_val(key)]
                    &&& final(self).view() == old(self).view().remove(fr_val(key))
                },
                None => {
                    &&& !old(self).view().dom().contains(fr_val(key))
                    &&& final(self).view() == old(self).view()
                },
            },
    {
        let ghost v = fr_val(key);
        match self.find(key) {
            Some(k) => {
                let cnt = self.entries[k].1;
                if cnt == 0 {
                    proof {
                        if self.m@.dom().contains(v) {
                            let k2 = choose|k2: int|
                                0 <= k2 < self.entries@.len() && fr_val(
                                    self.entries@[k2].0,
                                ) == v && self.entries@[k2].1 > 0;
                            assert(k2 != k as int);
                            assert(false);
                        }
                    }
                    None
                } else {
                    let k0 = self.entries[k].0;
                    self.entries.set(k, (k0, 0));
                    proof {
                        assert(old(self).m@.dom().contains(v) && old(self).m@[v] == cnt as nat);
                        self.m = Ghost(self.m@.remove(v));
                        assert forall|vv: nat| self.m@.dom().contains(vv) implies exists|t: int|
                            0 <= t < self.entries@.len() && fr_val((#[trigger] self.entries@[t]).0)
                                == vv && self.entries@[t].1 > 0 by {
                            let t = choose|t: int|
                                0 <= t < old(self).entries@.len() && fr_val(
                                    old(self).entries@[t].0,
                                ) == vv && old(self).entries@[t].1 > 0;
                            assert(t != k as int);
                            assert(fr_val(self.entries@[t].0) == vv && self.entries@[t].1 > 0);
                        }
                    }
                    Some(cnt)
                }
            },
            None => {
                proof {
                    if self.m@.dom().contains(v) {
                        assert(false);
                    }
                }
                None
            },
        }
    }
}

} // verus!
