//! A string-keyed association map with a `Map<Seq<char>, _>` view, backing
//! the four prefab indices. Keys are unique; every operation states its
//! effect on the map view.
use vstd::prelude::*;

verus! {

/// A key occurs among the pairs.
pub open spec fn has_key<V>(ps: Seq<(String, V)>, k: Seq<char>) -> bool {
    exists|i: int| 0 <= i < ps.len() && ps[i].0@ == k
}

/// The value stored under a key that occurs.
pub open spec fn val_of<V: View>(ps: Seq<(String, V)>, k: Seq<char>) -> V::V {
    ps[choose|i: int| 0 <= i < ps.len() && ps[i].0@ == k].1@
}

/// Pairwise distinct keys.
pub open spec fn keys_unique<V>(ps: Seq<(String, V)>) -> bool {
    forall|i: int, j: int| 0 <= i < j < ps.len() ==> ps[i].0@ != ps[j].0@
}

/// The set of keys.
pub open spec fn dom_set<V>(ps: Seq<(String, V)>) -> Set<Seq<char>> {
    Set::new(|k: Seq<char>| has_key(ps, k))
}

/// With unique keys, there are as many keys as pairs.
pub proof fn lemma_dom_card<V>(ps: Seq<(String, V)>)
    requires
        keys_unique(ps),
    ensures
        dom_set(ps).finite(),
        dom_set(ps).len() == ps.len(),
    decreases ps.len(),
{
    if ps.len() == 0 {
        assert(dom_set(ps) =~= Set::<Seq<char>>::empty());
    } else {
        let front = ps.drop_last();
        lemma_dom_card(front);
        assert forall|k: Seq<char>| has_key(ps, k) implies has_key(front, k) || k == ps.last().0@
            by {
            let j = choose|j: int| 0 <= j < ps.len() && ps[j].0@ == k;
            if j < ps.len() - 1 {
                assert(front[j].0@ == k);
            }
        }
        assert forall|k: Seq<char>| has_key(front, k) implies has_key(ps, k) by {
            let j = choose|j: int| 0 <= j < front.len() && front[j].0@ == k;
            assert(ps[j].0@ == k);
        }
        assert(has_key(ps, ps.last().0@)) by {
            assert(ps[ps.len() - 1].0@ == ps.last().0@);
        }
        assert(dom_set(ps) =~= dom_set(front).insert(ps.last().0@));
        assert(!has_key(front, ps.last().0@)) by {
            if has_key(front, ps.last().0@) {
                let j = choose|j: int| 0 <= j < front.len() && front[j].0@ == ps.last().0@;
                assert(ps[j].0@ == ps[ps.len() - 1].0@);
                assert(false);
            }
        }
    }
}

/// An association list with unique `String` keys, viewed as a map from
/// character sequences to the views of the values.
pub struct AssocMap<V> {
    pairs: Vec<(String, V)>,
}

impl<V: View> View for AssocMap<V> {
    type V = Map<Seq<char>, V::V>;

    closed spec fn view(&self) -> Map<Seq<char>, V::V> {
        Map::new(|k: Seq<char>| has_key(self.pairs@, k), |k: Seq<char>| val_of(self.pairs@, k))
    }
}

impl<V: View> AssocMap<V> {
    /// Keys are pairwise distinct.
    pub closed spec fn wf(&self) -> bool {
        keys_unique(self.pairs@)
    }

    /// The pair at `i` is what the view stores under its key.
    proof fn lemma_pair_at(&self, i: int)
        requires
            self.wf(),
            0 <= i < self.pairs@.len(),
        ensures
            self@.contains_key(self.pairs@[i].0@),
            self@[self.pairs@[i].0@] == self.pairs@[i].1@,
    {
        let k = self.pairs@[i].0@;
        assert(has_key(self.pairs@, k));
        let j = choose|j: int| 0 <= j < self.pairs@.len() && self.pairs@[j].0@ == k;
        assert(j == i);
    }

    /// An empty map.
    pub fn new() -> (r: AssocMap<V>)
        ensures
            r.wf(),
            r@ =~= Map::<Seq<char>, V::V>::empty(),
    {
        let r = AssocMap { pairs: Vec::new() };
        proof {
            assert(forall|k: Seq<char>| !has_key(r.pairs@, k));
        }
        r
    }

    /// How many entries the map holds.
    pub fn len(&self) -> (r: usize)
        requires
            self.wf(),
        ensures
            r == self@.dom().len(),
    {
        proof {
            lemma_dom_card(self.pairs@);
            assert(self@.dom() =~= dom_set(self.pairs@));
        }
        self.pairs.len()
    }

    /// The index of `k` among the pairs, if it occurs.
    fn index_of(&self, k: &String) -> (r: Option<usize>)
        ensures
            match r {
                Some(i) => i < self.pairs@.len() && self.pairs@[i as int].0@ == k@,
                None => !has_key(self.pairs@, k@),
            },
    {
        let n = self.pairs.len();
        let mut i: usize = 0;
        while i < n
            invariant
                i <= n,
                n == self.pairs@.len(),
                forall|j: int| 0 <= j < i ==> self.pairs@[j].0@ != k@,
            decreases n - i,
        {
            if self.pairs[i].0 == *k {
                return Some(i);
            }
            i = i + 1;
        }
        None
    }

    /// Whether `k` is present.
    pub fn contains_key(&self, k: &String) -> (r: bool)
        requires
            self.wf(),
        ensures
            r == self@.contains_key(k@),
    {
        match self.index_of(k) {
            Some(i) => {
                proof {
                    self.lemma_pair_at(i as int);
                }
                true
            },
            None => false,
        }
    }

    /// The value under `k`, if present.
    pub fn get(&self, k: &String) -> (r: Option<&V>)
        requires
            self.wf(),
        ensures
            match r {
                Some(v) => self@.contains_key(k@) && v@ == self@[k@],
                None => !self@.contains_key(k@),
            },
    {
        match self.index_of(k) {
            Some(i) => {
                proof {
                    self.lemma_pair_at(i as int);
                }
                Some(&self.pairs[i].1)
            },
            None => None,
        }
    }

    /// Insert or update: afterwards `k` maps to `v`, nothing else changes.
    pub fn insert(&mut self, k: String, v: V)
        requires
            old(self).wf(),
        ensures
            final(self).wf(),
            final(self)@ =~= old(self)@.insert(k@, v@),
    {
        let ghost oldps = self.pairs@;
        match self.index_of(&k) {
            Some(i) => {
                proof {
                    self.lemma_pair_at(i as int);
                }
                let ghost kk = k@;
                self.pairs.set(i, (k, v));
                proof {
                    let newps = self.pairs@;
                    assert(newps[i as int].0@ == kk && newps[i as int].1@ == v@);
                    assert(oldps[i as int].0@ == kk);
                    assert(keys_unique(newps));
                    assert forall|k2: Seq<char>| has_key(oldps, k2) implies has_key(
                        newps,
                        k2,
                    ) by {
                        let j = choose|j: int| 0 <= j < oldps.len() && oldps[j].0@ == k2;
                        if j == i {
                            assert(newps[i as int].0@ == k2);
                        } else {
                            assert(newps[j].0@ == k2);
                        }
                    }
                    assert forall|k2: Seq<char>| has_key(newps, k2) implies has_key(
                        oldps,
                        k2,
                    ) by {
                        let j = choose|j: int| 0 <= j < newps.len() && newps[j].0@ == k2;
                        if j == i {
                            assert(oldps[i as int].0@ == k2);
                        } else {
                            assert(oldps[j].0@ == k2);
                        }
                    }
                    assert forall|k2: Seq<char>| has_key(newps, k2) && k2 != kk implies val_of(
                        newps,
                        k2,
                    ) == val_of(oldps, k2) by {
                        let j = choose|j: int| 0 <= j < newps.len() && newps[j].0@ == k2;
                        assert(j != i);
                        assert(oldps[j].0@ == k2);
                        let j2 = choose|j2: int| 0 <= j2 < oldps.len() && oldps[j2].0@ == k2;
                        assert(j2 == j);
                    }
                    assert(val_of(newps, kk) == v@) by {
                        let j = choose|j: int| 0 <= j < newps.len() && newps[j].0@ == kk;
                        assert(j == i);
                    }
                    assert(has_key(newps, kk));
                    assert(self@ =~= old(self)@.insert(kk, v@));
                }
            },
            None => {
                self.pairs.push((k, v));
                proof {
                    let newps = self.pairs@;
                    assert(forall|j: int|
                        0 <= j < oldps.len() ==> newps[j] == oldps[j]);
                    assert(keys_unique(newps));
                    assert forall|k2: Seq<char>| has_key(oldps, k2) implies has_key(newps, k2) by {
                        let j = choose|j: int| 0 <= j < oldps.len() && oldps[j].0@ == k2;
                        assert(newps[j].0@ == k2);
                    }
                    assert forall|k2: Seq<char>| has_key(newps, k2) && k2 != k@ implies has_key(
                        oldps,
                        k2,
                    ) && val_of(newps, k2) == val_of(oldps, k2) by {
                        let j = choose|j: int| 0 <= j < newps.len() && newps[j].0@ == k2;
                        assert(j < oldps.len());
                        assert(oldps[j].0@ == k2);
                        let j2 = choose|j2: int| 0 <= j2 < oldps.len() && oldps[j2].0@ == k2;
                        assert(j2 == j);
                    }
                    assert(val_of(newps, k@) == v@) by {
                        assert(newps[oldps.len() as int].0@ == k@);
                        let j = choose|j: int| 0 <= j < newps.len() && newps[j].0@ == k@;
                        assert(j == oldps.len());
                    }
                    assert(has_key(newps, k@)) by {
                        assert(newps[oldps.len() as int].0@ == k@);
                    }
                    assert(self@ =~= old(self)@.insert(k@, v@));
                }
            },
        }
    }

    /// Remove `k` if present; afterwards it is absent, nothing else changes.
    pub fn remove(&mut self, k: &String)
        requires
            old(self).wf(),
        ensures
            final(self).wf(),
            final(self)@ =~= old(self)@.remove(k@),
    {
        let ghost oldps = self.pairs@;
        match self.index_of(k) {
            Some(i) => {
                proof {
                    self.lemma_pair_at(i as int);
                }
                self.pairs.remove(i);
                proof {
                    let newps = self.pairs@;
                    assert(newps =~= oldps.subrange(0, i as int) + oldps.subrange(
                        i + 1,
                        oldps.len() as int,
                    ));
                    assert forall|a: int, b: int| 0 <= a < b < newps.len() implies newps[a].0@
                        != newps[b].0@ by {
                        let a2: int = if a < i { a } else { a + 1 };
                        let b2: int = if b < i { b } else { b + 1 };
                        assert(newps[a] == oldps[a2] && newps[b] == oldps[b2]);
                    }
                    assert forall|k2: Seq<char>| true implies (has_key(newps, k2) == (has_key(
                        oldps,
                        k2,
                    ) && k2 != k@)) by {
                        if has_key(newps, k2) {
                            let j = choose|j: int| 0 <= j < newps.len() && newps[j].0@ == k2;
                            let j2: int = if j < i { j } else { j + 1 };
                            assert(oldps[j2].0@ == k2);
                            assert(j2 != i);
                        }
                        if has_key(oldps, k2) && k2 != k@ {
                            let j = choose|j: int| 0 <= j < oldps.len() && oldps[j].0@ == k2;
                            assert(j != i);
                            if j < i {
                                assert(newps[j].0@ == k2);
                            } else {
                                assert(newps[j - 1].0@ == k2);
                            }
                        }
                    }
                    assert forall|k2: Seq<char>| has_key(newps, k2) implies val_of(newps, k2)
                        == val_of(oldps, k2) by {
                        let j = choose|j: int| 0 <= j < newps.len() && newps[j].0@ == k2;
                        let j2: int = if j < i { j } else { j + 1 };
                        assert(oldps[j2].0@ == k2);
                        let j3 = choose|j3: int| 0 <= j3 < oldps.len() && oldps[j3].0@ == k2;
                        assert(j3 == j2);
                    }
                    assert(self@ =~= old(self)@.remove(k@));
                }
            },
            None => {
                proof {
                    assert(!self@.contains_key(k@));
                    assert(self@ =~= old(self)@.remove(k@));
                }
            },
        }
    }
}


/// A set of strings, viewed as a `Set<Seq<char>>`.
pub struct StrSet {
    items: Vec<String>,
}

impl View for StrSet {
    type V = Set<Seq<char>>;

    closed spec fn view(&self) -> Set<Seq<char>> {
        Set::new(|k: Seq<char>| exists|i: int| 0 <= i < self.items@.len() && self.items@[i]@ == k)
    }
}

impl StrSet {
    /// An empty set.
    pub fn new() -> (r: StrSet)
        ensures
            r@ =~= Set::<Seq<char>>::empty(),
    {
        let r = StrSet { items: Vec::new() };
        proof {
            assert(forall|k: Seq<char>| !r@.contains(k));
        }
        r
    }

    /// Add `s`.
    pub fn add(&mut self, s: String)
        ensures
            final(self)@ =~= old(self)@.insert(s@),
    {
        let ghost oldis = self.items@;
        let ghost sv = s@;
        self.items.push(s);
        proof {
            let newis = self.items@;
            assert(newis[oldis.len() as int]@ == sv);
            assert forall|k: Seq<char>| old(self)@.contains(k) implies self@.contains(k) by {
                let j = choose|j: int| 0 <= j < oldis.len() && oldis[j]@ == k;
                assert(newis[j]@ == k);
            }
            assert forall|k: Seq<char>| self@.contains(k) && k != sv implies old(self)@.contains(
                k,
            ) by {
                let j = choose|j: int| 0 <= j < newis.len() && newis[j]@ == k;
                assert(j < oldis.len());
                assert(oldis[j]@ == k);
            }
            assert(self@ =~= old(self)@.insert(sv));
        }
    }

    /// Whether `s` is in the set.
    pub fn has(&self, s: &String) -> (r: bool)
        ensures
            r == self@.contains(s@),
    {
        let n = self.items.len();
        let mut i: usize = 0;
        while i < n
            invariant
                i <= n,
                n == self.items@.len(),
                forall|j: int| 0 <= j < i ==> self.items@[j]@ != s@,
            decreases n - i,
        {
            if self.items[i] == *s {
                return true;
            }
            i = i + 1;
        }
        proof {
            if self@.contains(s@) {
                let j = choose|j: int| 0 <= j < self.items@.len() && self.items@[j]@ == s@;
                assert(false);
            }
        }
        false
    }
}

impl<V: View> AssocMap<V> {
    /// The entries, for callers that persist the map: each pair is what the
    /// view stores under its key.
    pub fn items(&self) -> (r: &Vec<(String, V)>)
        requires
            self.wf(),
        ensures
            r@.len() == self@.dom().len(),
            forall|i: int|
                0 <= i < r@.len() ==> self@.contains_key(#[trigger] r@[i].0@) && self@[r@[i].0@]
                    == r@[i].1@,
    {
        proof {
            lemma_dom_card(self.pairs@);
            assert(self@.dom() =~= dom_set(self.pairs@));
            assert forall|i: int| 0 <= i < self.pairs@.len() implies self@.contains_key(
                #[trigger] self.pairs@[i].0@,
            ) && self@[self.pairs@[i].0@] == self.pairs@[i].1@ by {
                self.lemma_pair_at(i);
            }
        }
        &self.pairs
    }

    /// The set of keys.
    pub fn key_set(&self) -> (r: StrSet)
        requires
            self.wf(),
        ensures
            r@ =~= self@.dom(),
    {
        let n = self.pairs.len();
        let mut out = StrSet::new();
        let mut i: usize = 0;
        while i < n
            invariant
                i <= n,
                n == self.pairs@.len(),
                self.wf(),
                forall|k: Seq<char>|
                    out@.contains(k) == exists|j: int|
                        0 <= j < i && #[trigger] self.pairs@[j].0@ == k,
            decreases n - i,
        {
            out.add(self.pairs[i].0.clone());
            i = i + 1;
        }
        proof {
            assert forall|k: Seq<char>| out@.contains(k) implies self@.contains_key(k) by {
                let j = choose|j: int| 0 <= j < n && self.pairs@[j].0@ == k;
                self.lemma_pair_at(j);
            }
            assert forall|k: Seq<char>| self@.contains_key(k) implies out@.contains(k) by {
                let j = choose|j: int| 0 <= j < self.pairs@.len() && self.pairs@[j].0@ == k;
            }
            assert(out@ =~= self@.dom());
        }
        out
    }

    /// Drop every entry whose key is not in `keep`.
    pub fn retained(self, keep: &StrSet) -> (r: AssocMap<V>)
        requires
            self.wf(),
        ensures
            r.wf(),
            r@ =~= self@.restrict(keep@),
    {
        let ghost origps = self.pairs@;
        let ghost orig = self;
        let mut src = self;
        let mut out: Vec<(String, V)> = Vec::new();
        while src.pairs.len() > 0
            invariant
                src.pairs@.len() <= origps.len(),
                src.pairs@ == origps.subrange(0, src.pairs@.len() as int),
                keys_unique(origps),
                keys_unique(out@),
                forall|k2: Seq<char>|
                    has_key(out@, k2) == exists|j: int|
                        src.pairs@.len() <= j < origps.len() && #[trigger] origps[j].0@ == k2
                            && keep@.contains(k2),
                forall|k2: Seq<char>|
                    has_key(out@, k2) ==> val_of(out@, k2) == val_of(origps, k2),
            decreases src.pairs@.len(),
        {
            let ghost srcps = src.pairs@;
            let ghost outps0 = out@;
            match src.pairs.pop() {
                Some(pair) => {
                    let ghost kv = pair.0@;
                    proof {
                        assert(srcps[srcps.len() - 1] == pair);
                        assert(origps[srcps.len() - 1].0@ == kv);
                    }
                    let kept = keep.has(&pair.0);
                    if kept {
                        out.push(pair);
                    }
                    proof {
                        let newlen = src.pairs@.len() as int;
                        assert(src.pairs@ =~= origps.subrange(0, newlen));
                        if kept {
                            assert(out@[outps0.len() as int].0@ == kv);
                            assert forall|a: int, b: int| 0 <= a < b < out@.len() implies out@[a].0@
                                != out@[b].0@ by {
                                if b == outps0.len() {
                                    if has_key(outps0, out@[b].0@) {
                                        let j = choose|j: int|
                                            newlen + 1 <= j < origps.len() && origps[j].0@ == kv
                                                && keep@.contains(kv);
                                        assert(origps[newlen].0@ == kv);
                                        assert(false);
                                    }
                                    assert(out@[a].0@ != out@[b].0@) by {
                                        if out@[a].0@ == out@[b].0@ {
                                            assert(has_key(outps0, kv));
                                            assert(false);
                                        }
                                    }
                                }
                            }
                        }
                        assert forall|k2: Seq<char>| has_key(out@, k2) implies (exists|j: int|
                            newlen <= j < origps.len() && #[trigger] origps[j].0@ == k2
                                && keep@.contains(k2)) by {
                            let j = choose|j: int| 0 <= j < out@.len() && out@[j].0@ == k2;
                            if j < outps0.len() {
                                assert(has_key(outps0, k2));
                                let j2 = choose|j2: int|
                                    newlen + 1 <= j2 < origps.len() && #[trigger] origps[j2].0@
                                        == k2 && keep@.contains(k2);
                            } else {
                                assert(k2 == kv);
                                assert(origps[newlen].0@ == k2 && keep@.contains(k2));
                            }
                        }
                        assert forall|j: int|
                            newlen <= j < origps.len() && keep@.contains(
                                #[trigger] origps[j].0@,
                            ) implies has_key(out@, origps[j].0@) by {
                            let k2 = origps[j].0@;
                            if j == newlen {
                                if kept {
                                    assert(out@[outps0.len() as int].0@ == k2);
                                } else {
                                    assert(k2 == kv && !keep@.contains(kv));
                                    assert(false);
                                }
                            } else {
                                assert(has_key(outps0, k2));
                                let j3 = choose|j3: int|
                                    0 <= j3 < outps0.len() && outps0[j3].0@ == k2;
                                assert(out@[j3].0@ == k2);
                            }
                        }
                        assert forall|k2: Seq<char>| has_key(out@, k2) implies val_of(out@, k2)
                            == val_of(origps, k2) by {
                            let j = choose|j: int| 0 <= j < out@.len() && out@[j].0@ == k2;
                            if j < outps0.len() {
                                assert(has_key(outps0, k2));
                                let j2 = choose|j2: int|
                                    0 <= j2 < outps0.len() && outps0[j2].0@ == k2;
                                assert(j2 == j);
                                assert(val_of(outps0, k2) == out@[j].1@);
                                assert(val_of(out@, k2) == out@[choose|jj: int|
                                    0 <= jj < out@.len() && out@[jj].0@ == k2].1@);
                                let jj = choose|jj: int| 0 <= jj < out@.len() && out@[jj].0@ == k2;
                                assert(jj == j);
                            } else {
                                assert(j == outps0.len() && k2 == kv);
                                let jj = choose|jj: int| 0 <= jj < out@.len() && out@[jj].0@ == k2;
                                assert(jj == j);
                                let jo = choose|jo: int|
                                    0 <= jo < origps.len() && origps[jo].0@ == k2;
                                assert(jo == newlen) by {
                                    if jo != newlen {
                                        assert(origps[jo].0@ == origps[newlen].0@);
                                        assert(false);
                                    }
                                }
                                assert(val_of(origps, k2) == origps[newlen].1@);
                            }
                        }
                    }
                },
                None => {
                    proof {
                        assert(false);
                    }
                },
            }
        }
        let r = AssocMap { pairs: out };
        proof {
            assert forall|k2: Seq<char>| r@.contains_key(k2) implies orig@.contains_key(k2)
                && keep@.contains(k2) && r@[k2] == orig@[k2] by {
                assert(has_key(out@, k2));
            }
            assert forall|k2: Seq<char>| orig@.contains_key(k2) && keep@.contains(k2) implies
                r@.contains_key(k2) by {
                assert(has_key(origps, k2));
                let j = choose|j: int| 0 <= j < origps.len() && origps[j].0@ == k2;
                assert(0 <= j < origps.len() && origps[j].0@ == k2 && keep@.contains(k2));
                assert(has_key(out@, k2));
            }
            assert(r@ =~= orig@.restrict(keep@));
        }
        r
    }
}

impl AssocMap<String> {
    /// The keys whose value lies in `vals`.
    pub fn keys_with_value_in(&self, vals: &StrSet) -> (r: StrSet)
        requires
            self.wf(),
        ensures
            forall|k: Seq<char>|
                r@.contains(k) == (self@.contains_key(k) && vals@.contains(self@[k])),
    {
        let n = self.pairs.len();
        let mut out = StrSet::new();
        let mut i: usize = 0;
        while i < n
            invariant
                i <= n,
                n == self.pairs@.len(),
                self.wf(),
                forall|k: Seq<char>|
                    out@.contains(k) == exists|j: int|
                        0 <= j < i && #[trigger] self.pairs@[j].0@ == k && vals@.contains(
                            self.pairs@[j].1@,
                        ),
            decreases n - i,
        {
            if vals.has(&self.pairs[i].1) {
                out.add(self.pairs[i].0.clone());
                proof {
                    assert(self.pairs@[i as int].0@ == self.pairs@[i as int].0@ && vals@.contains(
                        self.pairs@[i as int].1@,
                    ));
                }
            }
            i = i + 1;
        }
        proof {
            assert forall|k: Seq<char>| out@.contains(k) implies self@.contains_key(k)
                && vals@.contains(self@[k]) by {
                let j = choose|j: int|
                    0 <= j < n && self.pairs@[j].0@ == k && vals@.contains(self.pairs@[j].1@);
                self.lemma_pair_at(j);
            }
            assert forall|k: Seq<char>| self@.contains_key(k) && vals@.contains(self@[k]) implies
                out@.contains(k) by {
                let j = choose|j: int| 0 <= j < self.pairs@.len() && self.pairs@[j].0@ == k;
                self.lemma_pair_at(j);
            }
        }
        out
    }
}

} // verus!
